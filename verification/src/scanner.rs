use vstd::prelude::*;
use vstd::string::StrSliceExecFns;
use vstd::string::StringSliceAdditionalSpecFns;
use vstd::utf8::encode_utf8;

verus! {

// Structural bytes of the minimal JSON grammar the scanner recognises.
pub const OCB_CHR: u8 = 123; // opening curly bracket
pub const CCB_CHR: u8 = 125; // closing curly bracket
pub const OSB_CHR: u8 = 91; // opening square bracket
pub const CSB_CHR: u8 = 93; // closing square bracket
pub const DQ_CHR: u8 = 34; // double quote
pub const SPACE_CHR: u8 = 32;
pub const TAB_CHR: u8 = 9;
pub const NEWLINE_CHR: u8 = 10;
pub const RETURN_CHR: u8 = 13;
pub const COMMA_CHR: u8 = 44;
pub const COLON_CHR: u8 = 58;
pub const ESCAPE_CHR: u8 = 92;

/// A global position: (chunk index, offset within that chunk). Chunk indices
/// increase from 0 as chunks are fed and are never reused.
pub type ChrIndex = (usize, usize);

/// The phase the scanner is in after the bytes it has consumed so far.
#[derive(Debug, Clone, Copy)]
pub enum ScannerState {
    WaitingNextKey,
    MeetKeyCandOpener,
    ConfirmingKey,
    DefiningValueType,
    CheckingValueRange,
    FindingNextComma,
}

/// A deletion instruction, addressed by a global position.
#[derive(Debug, Clone, Copy)]
pub enum Message {
    /// The range to delete begins at this position (inclusive).
    SkipStartFrom(ChrIndex),
    /// The range to delete ends at this position (inclusive).
    SkipEndTo(ChrIndex),
    /// The range to delete ends at the byte just before this position.
    SkipEndPreviousTo(ChrIndex),
}

/// Mathematical form of a deletion instruction.
pub enum MsgModel {
    StartFrom((int, int)),
    EndTo((int, int)),
    EndPreviousTo((int, int)),
}

impl View for Message {
    type V = MsgModel;

    open spec fn view(&self) -> MsgModel {
        match *self {
            Message::SkipStartFrom(p) => MsgModel::StartFrom((p.0 as int, p.1 as int)),
            Message::SkipEndTo(p) => MsgModel::EndTo((p.0 as int, p.1 as int)),
            Message::SkipEndPreviousTo(p) => MsgModel::EndPreviousTo((p.0 as int, p.1 as int)),
        }
    }
}

/// Why a scan had to stop.
#[derive(Debug, Clone, Copy, PartialEq, Eq, Structural)]
pub enum ScanError {
    /// A key in the removal set was not followed (after whitespace) by a colon.
    MissingColon,
    /// A machine counter (chunk index or nesting depth) reached its maximum.
    LimitExceeded,
}

/// Structural classification of a JSON value, which decides how its end is found.
#[derive(Debug)]
pub enum ValueType {
    Object,
    String,
    Array,
    Others, // number, bool or null
}

/// What one byte told the value-range checker.
pub enum ClosingCondition {
    ClosedYet,
    /// The value is complete; the flag says whether the closing byte was a comma.
    ClosedWithComma(bool),
}

/// The scanner as a mathematical value: every field a caller's reasoning needs.
#[verifier::ext_equal]
pub struct ScanModel {
    /// The removal set, each key as its UTF-8 bytes.
    pub keys: Seq<Seq<u8>>,
    /// Index the next fed chunk will get.
    pub next_buffer_index: int,
    /// Current phase.
    pub state: ScannerState,
    /// Whether the remembered candidate opener was a comma.
    pub opener_is_comma: bool,
    /// Position of the remembered candidate opener.
    pub opener_pos: (int, int),
    /// Bytes of the key being accumulated (escape-decoded).
    pub key_bytes: Seq<u8>,
    /// Position of the opening quote of that key.
    pub dq_start: (int, int),
    /// Whether the last key byte seen was an unconsumed escape.
    pub key_escape: bool,
    /// Whether the colon after a matched key has been seen.
    pub meet_colon: bool,
    /// Type of the value whose extent is being tracked.
    pub value_type: ValueType,
    /// Unmatched open brackets of the value's own kind.
    pub hierarchy: int,
    /// Whether the last value byte seen was an unconsumed escape.
    pub value_escape: bool,
    /// The deferred end instruction while a following comma is sought.
    pub end_cache: MsgModel,
    /// Deletion instructions emitted and not yet drained.
    pub queue: Seq<MsgModel>,
}

/// The whitespace bytes the scanner skips between tokens.
pub open spec fn is_ws_byte(c: u8) -> bool {
    c == SPACE_CHR || c == TAB_CHR || c == NEWLINE_CHR || c == RETURN_CHR
}

/// Classifies a byte as a candidate key opener: `Some(true)` for a comma,
/// `Some(false)` for `{` or `[`, `None` otherwise.
pub open spec fn opener_kind(c: u8) -> Option<bool> {
    if c == OCB_CHR || c == OSB_CHR {
        Some(false)
    } else if c == COMMA_CHR {
        Some(true)
    } else {
        None
    }
}

/// One byte of key accumulation: yields (new bytes, new escape flag, key complete).
/// An escaped byte is always taken literally and never ends the key.
pub open spec fn key_step(bytes: Seq<u8>, escape: bool, c: u8) -> (Seq<u8>, bool, bool) {
    if escape {
        (bytes.push(c), false, false)
    } else if c == ESCAPE_CHR {
        (bytes, true, false)
    } else if c == DQ_CHR {
        (bytes, false, true)
    } else {
        (bytes.push(c), false, false)
    }
}

/// One byte of colon seeking and value classification: once the colon has
/// been seen, the value's first non-whitespace byte names its type.
/// A non-whitespace byte other than a colon before the colon is malformed input.
pub open spec fn colon_step(meet_colon: bool, c: u8) -> Result<Option<ValueType>, ScanError> {
    if meet_colon {
        if c == OCB_CHR {
            Ok(Some(ValueType::Object))
        } else if c == OSB_CHR {
            Ok(Some(ValueType::Array))
        } else if c == DQ_CHR {
            Ok(Some(ValueType::String))
        } else if is_ws_byte(c) {
            Ok(None)
        } else {
            Ok(Some(ValueType::Others))
        }
    } else {
        if is_ws_byte(c) {
            Ok(None)
        } else if c == COLON_CHR {
            Ok(None)
        } else {
            Err(ScanError::MissingColon)
        }
    }
}

/// The colon flag after one byte: it turns true exactly on the colon byte.
pub open spec fn colon_step_flag(meet_colon: bool, c: u8) -> bool {
    meet_colon || c == COLON_CHR
}

/// One byte of value-extent tracking: yields (new depth, new escape flag, condition).
pub open spec fn closing_step(vt: ValueType, hierarchy: int, escape: bool, c: u8) -> Result<
    (int, bool, ClosingCondition),
    ScanError,
> {
    if escape {
        Ok((hierarchy, false, ClosingCondition::ClosedYet))
    } else if c == OCB_CHR {
        if vt is Object {
            if hierarchy >= usize::MAX {
                Err(ScanError::LimitExceeded)
            } else {
                Ok((hierarchy + 1, false, ClosingCondition::ClosedYet))
            }
        } else {
            Ok((hierarchy, false, ClosingCondition::ClosedYet))
        }
    } else if c == CCB_CHR {
        if vt is Object {
            if hierarchy == 0 {
                Ok((hierarchy, false, ClosingCondition::ClosedWithComma(false)))
            } else {
                Ok((hierarchy - 1, false, ClosingCondition::ClosedYet))
            }
        } else if vt is Others {
            Ok((hierarchy, false, ClosingCondition::ClosedWithComma(false)))
        } else {
            Ok((hierarchy, false, ClosingCondition::ClosedYet))
        }
    } else if c == OSB_CHR {
        if vt is Array {
            if hierarchy >= usize::MAX {
                Err(ScanError::LimitExceeded)
            } else {
                Ok((hierarchy + 1, false, ClosingCondition::ClosedYet))
            }
        } else {
            Ok((hierarchy, false, ClosingCondition::ClosedYet))
        }
    } else if c == CSB_CHR {
        if vt is Array {
            if hierarchy == 0 {
                Ok((hierarchy, false, ClosingCondition::ClosedWithComma(false)))
            } else {
                Ok((hierarchy - 1, false, ClosingCondition::ClosedYet))
            }
        } else if vt is Others {
            Ok((hierarchy, false, ClosingCondition::ClosedWithComma(false)))
        } else {
            Ok((hierarchy, false, ClosingCondition::ClosedYet))
        }
    } else if c == DQ_CHR {
        if vt is String || vt is Others {
            Ok((hierarchy, false, ClosingCondition::ClosedWithComma(false)))
        } else {
            Ok((hierarchy, false, ClosingCondition::ClosedYet))
        }
    } else if is_ws_byte(c) {
        if vt is Others {
            Ok((hierarchy, false, ClosingCondition::ClosedWithComma(false)))
        } else {
            Ok((hierarchy, false, ClosingCondition::ClosedYet))
        }
    } else if c == COMMA_CHR {
        if vt is Others {
            Ok((hierarchy, false, ClosingCondition::ClosedWithComma(true)))
        } else {
            Ok((hierarchy, false, ClosingCondition::ClosedYet))
        }
    } else if c == ESCAPE_CHR {
        Ok((hierarchy, true, ClosingCondition::ClosedYet))
    } else {
        Ok((hierarchy, false, ClosingCondition::ClosedYet))
    }
}

/// Whether the accumulated key bytes equal some key of the removal set.
pub open spec fn key_in_set(keys: Seq<Seq<u8>>, kb: Seq<u8>) -> bool {
    exists|j: int| 0 <= j < keys.len() && keys[j] == kb
}

/// Whether a value of this type excludes its terminator byte from the
/// deleted range (true exactly for number/bool/null values).
pub open spec fn range_to_previous(vt: ValueType) -> bool {
    vt is Others
}

pub open spec fn step_waiting(m: ScanModel, c: u8, pos: (int, int)) -> ScanModel {
    match opener_kind(c) {
        Some(is_comma) => ScanModel {
            state: ScannerState::MeetKeyCandOpener,
            opener_is_comma: is_comma,
            opener_pos: pos,
            ..m
        },
        None => m,
    }
}

pub open spec fn step_meet_opener(m: ScanModel, c: u8, pos: (int, int)) -> ScanModel {
    if is_ws_byte(c) {
        m
    } else if c == DQ_CHR {
        ScanModel {
            state: ScannerState::ConfirmingKey,
            key_bytes: Seq::empty(),
            dq_start: pos,
            key_escape: false,
            ..m
        }
    } else {
        ScanModel { state: ScannerState::WaitingNextKey, ..m }
    }
}

pub open spec fn step_confirming(m: ScanModel, c: u8) -> ScanModel {
    let (kb, esc, confirmed) = key_step(m.key_bytes, m.key_escape, c);
    if !confirmed {
        ScanModel { key_bytes: kb, key_escape: esc, ..m }
    } else if key_in_set(m.keys, m.key_bytes) {
        let start = if m.opener_is_comma {
            m.opener_pos
        } else {
            m.dq_start
        };
        ScanModel {
            state: ScannerState::DefiningValueType,
            meet_colon: false,
            queue: m.queue.push(MsgModel::StartFrom(start)),
            ..m
        }
    } else {
        ScanModel { state: ScannerState::WaitingNextKey, ..m }
    }
}

pub open spec fn step_defining(m: ScanModel, c: u8) -> Result<ScanModel, ScanError> {
    match colon_step(m.meet_colon, c) {
        Err(e) => Err(e),
        Ok(ov) => {
            let mc = colon_step_flag(m.meet_colon, c);
            match ov {
                None => Ok(ScanModel { meet_colon: mc, ..m }),
                Some(vt) => Ok(
                    ScanModel {
                        meet_colon: mc,
                        value_type: vt,
                        hierarchy: 0,
                        value_escape: false,
                        state: ScannerState::CheckingValueRange,
                        ..m
                    },
                ),
            }
        },
    }
}

pub open spec fn step_checking(m: ScanModel, c: u8, pos: (int, int)) -> Result<ScanModel, ScanError> {
    match closing_step(m.value_type, m.hierarchy, m.value_escape, c) {
        Err(e) => Err(e),
        Ok((h, esc, cond)) => {
            let m1 = ScanModel { hierarchy: h, value_escape: esc, ..m };
            match cond {
                ClosingCondition::ClosedYet => Ok(m1),
                ClosingCondition::ClosedWithComma(closed_with_comma) => {
                    let end_msg = if range_to_previous(m.value_type) {
                        MsgModel::EndPreviousTo(pos)
                    } else {
                        MsgModel::EndTo(pos)
                    };
                    if m.opener_is_comma {
                        if closed_with_comma {
                            Ok(
                                ScanModel {
                                    queue: m1.queue.push(end_msg),
                                    opener_is_comma: true,
                                    opener_pos: pos,
                                    state: ScannerState::MeetKeyCandOpener,
                                    ..m1
                                },
                            )
                        } else {
                            Ok(
                                ScanModel {
                                    queue: m1.queue.push(end_msg),
                                    state: ScannerState::WaitingNextKey,
                                    ..m1
                                },
                            )
                        }
                    } else {
                        if closed_with_comma {
                            Ok(
                                ScanModel {
                                    queue: m1.queue.push(MsgModel::EndTo(pos)),
                                    opener_is_comma: false,
                                    opener_pos: pos,
                                    state: ScannerState::MeetKeyCandOpener,
                                    ..m1
                                },
                            )
                        } else {
                            Ok(
                                ScanModel {
                                    end_cache: end_msg,
                                    state: ScannerState::FindingNextComma,
                                    ..m1
                                },
                            )
                        }
                    }
                },
            }
        },
    }
}

pub open spec fn step_finding_comma(m: ScanModel, c: u8, pos: (int, int)) -> ScanModel {
    if is_ws_byte(c) {
        m
    } else if c == COMMA_CHR {
        ScanModel {
            queue: m.queue.push(MsgModel::EndTo(pos)),
            opener_is_comma: false,
            opener_pos: pos,
            state: ScannerState::MeetKeyCandOpener,
            ..m
        }
    } else {
        let m1 = ScanModel { queue: m.queue.push(m.end_cache), ..m };
        match opener_kind(c) {
            Some(is_comma) => ScanModel {
                state: ScannerState::MeetKeyCandOpener,
                opener_is_comma: is_comma,
                opener_pos: pos,
                ..m1
            },
            None => ScanModel { state: ScannerState::WaitingNextKey, ..m1 },
        }
    }
}

/// The scanner once the input has ended: a deferred end instruction is
/// emitted as it would be on any non-comma byte (no comma can follow any
/// more), and the scanner returns to waiting; in every other phase nothing
/// remains to decide and the scanner is left as it stands.
pub open spec fn finish_scan(m: ScanModel) -> ScanModel {
    if m.state is FindingNextComma {
        ScanModel {
            queue: m.queue.push(m.end_cache),
            state: ScannerState::WaitingNextKey,
            ..m
        }
    } else {
        m
    }
}

/// The transition the scanner makes on one byte at a given global position.
pub open spec fn scan_byte(m: ScanModel, c: u8, pos: (int, int)) -> Result<ScanModel, ScanError> {
    match m.state {
        ScannerState::WaitingNextKey => Ok(step_waiting(m, c, pos)),
        ScannerState::MeetKeyCandOpener => Ok(step_meet_opener(m, c, pos)),
        ScannerState::ConfirmingKey => Ok(step_confirming(m, c)),
        ScannerState::DefiningValueType => step_defining(m, c),
        ScannerState::CheckingValueRange => step_checking(m, c, pos),
        ScannerState::FindingNextComma => Ok(step_finding_comma(m, c, pos)),
    }
}

/// The scanner after the first `n` bytes of a chunk, before the chunk index advances.
pub open spec fn scan_prefix(m: ScanModel, chunk: Seq<u8>, n: int) -> Result<ScanModel, ScanError>
    decreases n,
{
    if n <= 0 {
        Ok(m)
    } else {
        match scan_prefix(m, chunk, n - 1) {
            Ok(m1) => scan_byte(m1, chunk[n - 1], (m.next_buffer_index, n - 1)),
            Err(e) => Err(e),
        }
    }
}

/// The scanner after one whole chunk: every byte consumed, then the chunk index advanced.
pub open spec fn scan_chunk(m: ScanModel, chunk: Seq<u8>) -> Result<ScanModel, ScanError> {
    if m.next_buffer_index >= usize::MAX {
        Err(ScanError::LimitExceeded)
    } else {
        match scan_prefix(m, chunk, chunk.len() as int) {
            Ok(m1) => Ok(ScanModel { next_buffer_index: m.next_buffer_index + 1, ..m1 }),
            Err(e) => Err(e),
        }
    }
}

/// The UTF-8 bytes of each key of a removal list.
pub open spec fn bytes_of_keys(ks: Seq<String>) -> Seq<Seq<u8>> {
    Seq::new(ks.len(), |j: int| encode_utf8(ks[j]@))
}

/// A fresh scanner over the given removal set.
pub open spec fn init_scan_model(keys: Seq<Seq<u8>>) -> ScanModel {
    ScanModel {
        keys: keys,
        next_buffer_index: 0,
        state: ScannerState::WaitingNextKey,
        opener_is_comma: false,
        opener_pos: (0, 0),
        key_bytes: Seq::empty(),
        dq_start: (0, 0),
        key_escape: false,
        meet_colon: false,
        value_type: ValueType::Object,
        hierarchy: 0,
        value_escape: false,
        end_cache: MsgModel::StartFrom((0, 0)),
        queue: Seq::empty(),
    }
}

/// The phases in which the scanner is still looking for a key and holds no
/// undecided deletion; with an empty removal set it never leaves them.
pub open spec fn searching_phase(st: ScannerState) -> bool {
    st is WaitingNextKey || st is MeetKeyCandOpener || st is ConfirmingKey
}

/// With an empty removal set, one byte never emits an instruction, never
/// fails, and keeps the scanner in a searching phase with its remembered
/// opener no further than the byte just consumed.
proof fn lemma_scan_byte_no_keys(m: ScanModel, c: u8, pos: (int, int))
    requires
        m.keys.len() == 0,
        searching_phase(m.state),
        !(m.state is WaitingNextKey) ==> m.opener_pos.0 <= pos.0,
    ensures
        scan_byte(m, c, pos) is Ok,
        ({
            let m2 = scan_byte(m, c, pos)->Ok_0;
            &&& m2.queue == m.queue
            &&& m2.keys == m.keys
            &&& m2.next_buffer_index == m.next_buffer_index
            &&& searching_phase(m2.state)
            &&& (!(m2.state is WaitingNextKey) ==> m2.opener_pos.0 <= pos.0)
        }),
{
    assert(!key_in_set(m.keys, m.key_bytes));
}

/// `lemma_scan_byte_no_keys`, carried over a chunk prefix.
proof fn lemma_scan_prefix_no_keys(m: ScanModel, chunk: Seq<u8>, n: int)
    requires
        0 <= n <= chunk.len(),
        m.keys.len() == 0,
        searching_phase(m.state),
        !(m.state is WaitingNextKey) ==> m.opener_pos.0 <= m.next_buffer_index,
    ensures
        scan_prefix(m, chunk, n) is Ok,
        ({
            let m2 = scan_prefix(m, chunk, n)->Ok_0;
            &&& m2.queue == m.queue
            &&& m2.keys == m.keys
            &&& m2.next_buffer_index == m.next_buffer_index
            &&& searching_phase(m2.state)
            &&& (!(m2.state is WaitingNextKey) ==> m2.opener_pos.0 <= m.next_buffer_index)
        }),
    decreases n,
{
    if n > 0 {
        lemma_scan_prefix_no_keys(m, chunk, n - 1);
        let m1 = scan_prefix(m, chunk, n - 1)->Ok_0;
        lemma_scan_byte_no_keys(m1, chunk[n - 1], (m.next_buffer_index, n - 1));
    }
}

/// With an empty removal set, a whole chunk never emits an instruction,
/// never fails below the chunk-index limit, and keeps the scanner in a
/// searching phase with its opener inside the chunks already consumed.
pub proof fn lemma_scan_chunk_no_keys(m: ScanModel, chunk: Seq<u8>)
    requires
        m.keys.len() == 0,
        searching_phase(m.state),
        !(m.state is WaitingNextKey) ==> m.opener_pos.0 <= m.next_buffer_index,
        m.next_buffer_index < usize::MAX,
    ensures
        scan_chunk(m, chunk) is Ok,
        ({
            let m2 = scan_chunk(m, chunk)->Ok_0;
            &&& m2.queue == m.queue
            &&& m2.keys == m.keys
            &&& m2.next_buffer_index == m.next_buffer_index + 1
            &&& searching_phase(m2.state)
            &&& (!(m2.state is WaitingNextKey) ==> m2.opener_pos.0 < m2.next_buffer_index)
        }),
{
    lemma_scan_prefix_no_keys(m, chunk, chunk.len() as int);
}

/// Once a prefix of a chunk fails, the whole chunk fails the same way.
proof fn lemma_scan_prefix_err(m: ScanModel, chunk: Seq<u8>, i: int, n: int)
    requires
        0 <= i <= n,
        scan_prefix(m, chunk, i) is Err,
    ensures
        scan_prefix(m, chunk, n) == scan_prefix(m, chunk, i),
    decreases n - i,
{
    if i < n {
        lemma_scan_prefix_err(m, chunk, i, n - 1);
    }
}

#[derive(Debug)]
struct WaitingCondition {
    opener_is_comma: bool,
    opener_position: ChrIndex,
}

impl WaitingCondition {
    fn check_key_opener(&mut self, chr: &u8) -> (r: bool)
        ensures
            final(self).opener_position == old(self).opener_position,
            match opener_kind(*chr) {
                Some(is_comma) => r && final(self).opener_is_comma == is_comma,
                None => !r && *final(self) == *old(self),
            },
    {
        match *chr {
            OCB_CHR | OSB_CHR => {
                self.opener_is_comma = false;
                true
            },
            COMMA_CHR => {
                self.opener_is_comma = true;
                true
            },
            _ => false,
        }
    }

    fn update_position(&mut self, opener_position: ChrIndex)
        ensures
            final(self).opener_position == opener_position,
            final(self).opener_is_comma == old(self).opener_is_comma,
    {
        self.opener_position = opener_position;
    }

    fn key_cand_opener_is_comma(&self) -> (r: bool)
        ensures
            r == self.opener_is_comma,
    {
        self.opener_is_comma
    }
}

#[derive(Debug)]
struct KeyCache {
    key_bytes: Vec<u8>,
    dq_start_position: ChrIndex,
    escape_next: bool,
}

impl KeyCache {
    fn new(dq_position: ChrIndex) -> (r: Self)
        ensures
            r.key_bytes@ == Seq::<u8>::empty(),
            r.dq_start_position == dq_position,
            !r.escape_next,
    {
        Self { key_bytes: Vec::new(), dq_start_position: dq_position, escape_next: false }
    }

    fn confirm_key(&mut self, chr: &u8) -> (r: bool)
        ensures
            final(self).dq_start_position == old(self).dq_start_position,
            (final(self).key_bytes@, final(self).escape_next, r) == key_step(
                old(self).key_bytes@,
                old(self).escape_next,
                *chr,
            ),
    {
        if self.escape_next {
            self.key_bytes.push(*chr);
            self.escape_next = false;
            false
        } else {
            match *chr {
                ESCAPE_CHR => {
                    self.escape_next = true;
                    false
                },
                DQ_CHR => true,
                _ => {
                    self.key_bytes.push(*chr);
                    false
                },
            }
        }
    }
}

#[derive(Debug)]
struct ValueTypeDefiner {
    meet_colon: bool,
}

impl ValueTypeDefiner {
    fn init(&mut self)
        ensures
            !final(self).meet_colon,
    {
        self.meet_colon = false;
    }

    fn define_value_type(&mut self, chr: &u8) -> (r: Result<Option<ValueType>, ScanError>)
        ensures
            match colon_step(old(self).meet_colon, *chr) {
                Ok(ov) => {
                    &&& r is Ok
                    &&& r->Ok_0 == ov
                    &&& final(self).meet_colon == colon_step_flag(old(self).meet_colon, *chr)
                },
                Err(e) => r == Err::<Option<ValueType>, ScanError>(e),
            },
    {
        if self.meet_colon {
            match *chr {
                OCB_CHR => Ok(Some(ValueType::Object)),
                OSB_CHR => Ok(Some(ValueType::Array)),
                DQ_CHR => Ok(Some(ValueType::String)),
                SPACE_CHR | TAB_CHR | NEWLINE_CHR | RETURN_CHR => Ok(None),
                _ => Ok(Some(ValueType::Others)),
            }
        } else {
            match *chr {
                SPACE_CHR | TAB_CHR | NEWLINE_CHR | RETURN_CHR => Ok(None),
                COLON_CHR => {
                    self.meet_colon = true;
                    Ok(None)
                },
                _ => Err(ScanError::MissingColon),
            }
        }
    }
}

#[derive(Debug)]
struct ValueRangeChecker {
    value_type: ValueType,
    hierarchy: usize,
    escape_next: bool,
}

impl ValueRangeChecker {
    fn new(value_type: ValueType) -> (r: Self)
        ensures
            r.value_type == value_type,
            r.hierarchy == 0,
            !r.escape_next,
    {
        Self { value_type, hierarchy: 0, escape_next: false }
    }

    fn check_meeting_closing(&mut self, chr: u8) -> (r: Result<ClosingCondition, ScanError>)
        ensures
            final(self).value_type == old(self).value_type,
            match closing_step(
                old(self).value_type,
                old(self).hierarchy as int,
                old(self).escape_next,
                chr,
            ) {
                Ok((h, esc, cond)) => {
                    &&& r is Ok
                    &&& r->Ok_0 == cond
                    &&& final(self).hierarchy as int == h
                    &&& final(self).escape_next == esc
                },
                Err(e) => r == Err::<ClosingCondition, ScanError>(e),
            },
    {
        if !self.escape_next {
            match chr {
                OCB_CHR => {
                    match self.value_type {
                        ValueType::Object => {
                            if self.hierarchy == usize::MAX {
                                Err(ScanError::LimitExceeded)
                            } else {
                                self.hierarchy = self.hierarchy + 1;
                                Ok(ClosingCondition::ClosedYet)
                            }
                        },
                        _ => Ok(ClosingCondition::ClosedYet),
                    }
                },
                CCB_CHR => {
                    match self.value_type {
                        ValueType::Object => {
                            if self.hierarchy == 0 {
                                Ok(ClosingCondition::ClosedWithComma(false))
                            } else {
                                self.hierarchy = self.hierarchy - 1;
                                Ok(ClosingCondition::ClosedYet)
                            }
                        },
                        ValueType::Others => Ok(ClosingCondition::ClosedWithComma(false)),
                        _ => Ok(ClosingCondition::ClosedYet),
                    }
                },
                OSB_CHR => {
                    match self.value_type {
                        ValueType::Array => {
                            if self.hierarchy == usize::MAX {
                                Err(ScanError::LimitExceeded)
                            } else {
                                self.hierarchy = self.hierarchy + 1;
                                Ok(ClosingCondition::ClosedYet)
                            }
                        },
                        _ => Ok(ClosingCondition::ClosedYet),
                    }
                },
                CSB_CHR => {
                    match self.value_type {
                        ValueType::Array => {
                            if self.hierarchy == 0 {
                                Ok(ClosingCondition::ClosedWithComma(false))
                            } else {
                                self.hierarchy = self.hierarchy - 1;
                                Ok(ClosingCondition::ClosedYet)
                            }
                        },
                        ValueType::Others => Ok(ClosingCondition::ClosedWithComma(false)),
                        _ => Ok(ClosingCondition::ClosedYet),
                    }
                },
                DQ_CHR => {
                    match self.value_type {
                        ValueType::String | ValueType::Others => Ok(
                            ClosingCondition::ClosedWithComma(false),
                        ),
                        _ => Ok(ClosingCondition::ClosedYet),
                    }
                },
                SPACE_CHR | TAB_CHR | NEWLINE_CHR | RETURN_CHR => {
                    match self.value_type {
                        ValueType::Others => Ok(ClosingCondition::ClosedWithComma(false)),
                        _ => Ok(ClosingCondition::ClosedYet),
                    }
                },
                COMMA_CHR => {
                    match self.value_type {
                        ValueType::Others => Ok(ClosingCondition::ClosedWithComma(true)),
                        _ => Ok(ClosingCondition::ClosedYet),
                    }
                },
                ESCAPE_CHR => {
                    self.escape_next = true;
                    Ok(ClosingCondition::ClosedYet)
                },
                _ => Ok(ClosingCondition::ClosedYet),
            }
        } else {
            self.escape_next = false;
            Ok(ClosingCondition::ClosedYet)
        }
    }

    fn range_is_to_previous_chr(&self) -> (r: bool)
        ensures
            r == range_to_previous(self.value_type),
    {
        match self.value_type {
            ValueType::Others => true,
            _ => false,
        }
    }
}

/// The byte-level lexical scanner: a pure state machine that classifies the
/// incoming stream and emits deletion instructions, holding no copy of the data.
#[derive(Debug)]
pub struct Scanner {
    keys_to_remove: Vec<Vec<u8>>,
    pub next_buffer_index: usize,
    pub state: ScannerState,
    waiting_condition: WaitingCondition,
    key_cache: KeyCache,
    value_type_definer: ValueTypeDefiner,
    value_range_checker: ValueRangeChecker,
    pub skip_end_msg_cache: Message,
    pub queue: Vec<Message>,
}

impl View for Scanner {
    type V = ScanModel;

    closed spec fn view(&self) -> ScanModel {
        ScanModel {
            keys: self.keys_to_remove.deep_view(),
            next_buffer_index: self.next_buffer_index as int,
            state: self.state,
            opener_is_comma: self.waiting_condition.opener_is_comma,
            opener_pos: (
                self.waiting_condition.opener_position.0 as int,
                self.waiting_condition.opener_position.1 as int,
            ),
            key_bytes: self.key_cache.key_bytes@,
            dq_start: (
                self.key_cache.dq_start_position.0 as int,
                self.key_cache.dq_start_position.1 as int,
            ),
            key_escape: self.key_cache.escape_next,
            meet_colon: self.value_type_definer.meet_colon,
            value_type: self.value_range_checker.value_type,
            hierarchy: self.value_range_checker.hierarchy as int,
            value_escape: self.value_range_checker.escape_next,
            end_cache: self.skip_end_msg_cache@,
            queue: self.queue@.map_values(|msg: Message| msg@),
        }
    }
}


impl Scanner {
    /// A fresh scanner that will remove the given keys, compared byte-for-byte
    /// after escape decoding.
    pub fn new(keys_to_remove: Vec<String>) -> (r: Self)
        ensures
            r@ == init_scan_model(bytes_of_keys(keys_to_remove@)),
    {
        let mut key_bytes_list: Vec<Vec<u8>> = Vec::new();
        let mut i: usize = 0;
        while i < keys_to_remove.len()
            invariant
                i <= keys_to_remove@.len(),
                key_bytes_list@.len() == i,
                forall|j: int|
                    0 <= j < i ==> #[trigger] key_bytes_list.deep_view()[j] == encode_utf8(
                        keys_to_remove@[j]@,
                    ),
            decreases keys_to_remove@.len() - i,
        {
            let kb = keys_to_remove[i].as_str().as_bytes_vec();
            proof {
                assert(kb@ == encode_utf8(keys_to_remove@[i as int]@));
            }
            let ghost pre_list = key_bytes_list.deep_view();
            key_bytes_list.push(kb);
            proof {
                assert(kb.deep_view() =~= kb@);
                assert forall|j: int|
                    0 <= j < i + 1 implies #[trigger] key_bytes_list.deep_view()[j] == encode_utf8(
                    keys_to_remove@[j]@,
                ) by {
                    if j < i {
                        assert(key_bytes_list.deep_view()[j] == pre_list[j]);
                    } else {
                        assert(key_bytes_list.deep_view()[j] == kb.deep_view());
                    }
                }
            }
            i = i + 1;
        }
        assert(key_bytes_list.deep_view() =~= bytes_of_keys(keys_to_remove@));
        let r = Self {
            keys_to_remove: key_bytes_list,
            next_buffer_index: 0,
            state: ScannerState::WaitingNextKey,
            waiting_condition: WaitingCondition { opener_is_comma: false, opener_position: (0, 0) },
            key_cache: KeyCache::new((0, 0)),
            value_type_definer: ValueTypeDefiner { meet_colon: false },
            value_range_checker: ValueRangeChecker::new(ValueType::Object),
            skip_end_msg_cache: Message::SkipStartFrom((0, 0)),
            queue: Vec::new(),
        };
        assert(r@ =~~= init_scan_model(bytes_of_keys(keys_to_remove@)));
        r
    }

    /// The global position of the candidate key opener currently tracked.
    pub fn key_cand_opener_index(&self) -> (r: ChrIndex)
        ensures
            (r.0 as int, r.1 as int) == self@.opener_pos,
    {
        self.waiting_condition.opener_position
    }

    /// The scanner's current phase.
    pub fn phase(&self) -> (r: ScannerState)
        ensures
            r == self@.state,
    {
        self.state
    }

    /// The index the next fed chunk will get.
    pub fn next_index(&self) -> (r: usize)
        ensures
            r as int == self@.next_buffer_index,
    {
        self.next_buffer_index
    }

    /// The deferred end instruction held while a following comma is sought.
    pub fn end_msg_cache(&self) -> (r: Message)
        ensures
            r@ == self@.end_cache,
    {
        self.skip_end_msg_cache
    }

    /// Tells the scanner the input has ended: a deferred end instruction
    /// becomes real, since no comma can follow it any more.
    pub fn finish_input(&mut self)
        ensures
            final(self)@ == finish_scan(old(self)@),
    {
        match self.state {
            ScannerState::FindingNextComma => {
                self.queue.push(self.skip_end_msg_cache);
                self.state = ScannerState::WaitingNextKey;
                proof {
                    assert(self@ =~= finish_scan(old(self)@));
                }
            },
            _ => {
                proof {
                    assert(self@ =~= finish_scan(old(self)@));
                }
            },
        }
    }

    /// Hands out every deletion instruction emitted so far, leaving the
    /// scanner's own queue empty.
    pub fn take_queue(&mut self) -> (r: Vec<Message>)
        ensures
            r@.map_values(|msg: Message| msg@) == old(self)@.queue,
            final(self)@ == (ScanModel { queue: Seq::empty(), ..old(self)@ }),
    {
        let mut q: Vec<Message> = Vec::new();
        core::mem::swap(&mut self.queue, &mut q);
        proof {
            assert(self@ =~= (ScanModel { queue: Seq::empty(), ..old(self)@ }));
        }
        q
    }

    fn do_waiting(&mut self, chr: u8, i: usize)
        requires
            old(self).state is WaitingNextKey,
        ensures
            final(self)@ == step_waiting(old(self)@, chr, (old(self)@.next_buffer_index, i as int)),
            final(self).next_buffer_index == old(self).next_buffer_index,
    {
        let ghost pre = self@;
        let ghost pos = (pre.next_buffer_index, i as int);
        let meet_key_opener = self.waiting_condition.check_key_opener(&chr);
        if meet_key_opener {
            self.waiting_condition.update_position((self.next_buffer_index, i));
            self.state = ScannerState::MeetKeyCandOpener;
        }
        proof {
            assert(self@ =~= step_waiting(pre, chr, pos));
        }
    }

    fn do_meet_opener(&mut self, chr: u8, i: usize)
        requires
            old(self).state is MeetKeyCandOpener,
        ensures
            final(self)@ == step_meet_opener(
                old(self)@,
                chr,
                (old(self)@.next_buffer_index, i as int),
            ),
            final(self).next_buffer_index == old(self).next_buffer_index,
    {
        let ghost pre = self@;
        let ghost pos = (pre.next_buffer_index, i as int);
        match chr {
            SPACE_CHR | TAB_CHR | NEWLINE_CHR | RETURN_CHR => {},
            DQ_CHR => {
                let new_key_cache = KeyCache::new((self.next_buffer_index, i));
                self.key_cache = new_key_cache;
                self.state = ScannerState::ConfirmingKey;
            },
            _ => {
                // Not a key position, e.g. an empty object or array.
                self.state = ScannerState::WaitingNextKey;
            },
        }
        proof {
            assert(self@ =~= step_meet_opener(pre, chr, pos));
        }
    }

    fn do_confirming(&mut self, chr: u8)
        requires
            old(self).state is ConfirmingKey,
        ensures
            final(self)@ == step_confirming(old(self)@, chr),
            final(self).next_buffer_index == old(self).next_buffer_index,
    {
        let ghost pre = self@;
        let confirmed = self.key_cache.confirm_key(&chr);
        if confirmed {
            let mut need_to_remove = false;
            let mut k: usize = 0;
            while k < self.keys_to_remove.len()
                invariant
                    k <= self.keys_to_remove@.len(),
                    need_to_remove == (exists|j: int|
                        0 <= j < k && self.keys_to_remove.deep_view()[j]
                            == self.key_cache.key_bytes@),
                decreases self.keys_to_remove@.len() - k,
            {
                if &self.keys_to_remove[k] == &self.key_cache.key_bytes {
                    proof {
                        assert(self.keys_to_remove@[k as int]@ =~= self.key_cache.key_bytes@);
                        assert(self.keys_to_remove.deep_view()[k as int]
                            =~= self.keys_to_remove@[k as int]@);
                    }
                    need_to_remove = true;
                }
                k = k + 1;
            }
            proof {
                assert(need_to_remove == key_in_set(self@.keys, self.key_cache.key_bytes@));
            }
            if need_to_remove {
                let skip_start_msg = if self.waiting_condition.key_cand_opener_is_comma() {
                    Message::SkipStartFrom(self.waiting_condition.opener_position)
                } else {
                    Message::SkipStartFrom(self.key_cache.dq_start_position)
                };
                self.queue.push(skip_start_msg);
                self.value_type_definer.init();
                self.state = ScannerState::DefiningValueType;
                proof {
                    assert(self@.queue =~= pre.queue.push(skip_start_msg@));
                }
            } else {
                self.state = ScannerState::WaitingNextKey;
            }
        }
        proof {
            assert(self@ =~= step_confirming(pre, chr));
        }
    }

    fn do_defining(&mut self, chr: u8) -> (r: Result<(), ScanError>)
        requires
            old(self).state is DefiningValueType,
        ensures
            match step_defining(old(self)@, chr) {
                Ok(m2) => r is Ok && final(self)@ == m2 && final(self).next_buffer_index == old(
                    self,
                ).next_buffer_index,
                Err(e) => r == Err::<(), ScanError>(e),
            },
    {
        let ghost pre = self@;
        match self.value_type_definer.define_value_type(&chr) {
            Ok(defined_value_type) => {
                if let Some(value_type) = defined_value_type {
                    self.value_range_checker = ValueRangeChecker::new(value_type);
                    self.state = ScannerState::CheckingValueRange;
                }
                proof {
                    assert(step_defining(pre, chr) is Ok);
                    assert(self@ =~= step_defining(pre, chr)->Ok_0);
                }
                Ok(())
            },
            Err(e) => Err(e),
        }
    }

    fn do_checking(&mut self, chr: u8, i: usize) -> (r: Result<(), ScanError>)
        requires
            old(self).state is CheckingValueRange,
        ensures
            match step_checking(old(self)@, chr, (old(self)@.next_buffer_index, i as int)) {
                Ok(m2) => r is Ok && final(self)@ == m2 && final(self).next_buffer_index == old(
                    self,
                ).next_buffer_index,
                Err(e) => r == Err::<(), ScanError>(e),
            },
    {
        let ghost pre = self@;
        let ghost pos = (pre.next_buffer_index, i as int);
        match self.value_range_checker.check_meeting_closing(chr) {
            Ok(closing_condition) => {
                if let ClosingCondition::ClosedWithComma(closed_with_comma) = closing_condition {
                    let value_is_to_previous = self.value_range_checker.range_is_to_previous_chr();
                    let skip_end_msg = if value_is_to_previous {
                        Message::SkipEndPreviousTo((self.next_buffer_index, i))
                    } else {
                        Message::SkipEndTo((self.next_buffer_index, i))
                    };
                    let key_opener_is_comma = self.waiting_condition.key_cand_opener_is_comma();
                    if key_opener_is_comma {
                        if closed_with_comma {
                            self.queue.push(skip_end_msg);
                            self.waiting_condition.opener_is_comma = true;
                            self.waiting_condition.update_position((self.next_buffer_index, i));
                            self.state = ScannerState::MeetKeyCandOpener;
                        } else {
                            self.queue.push(skip_end_msg);
                            self.state = ScannerState::WaitingNextKey;
                        }
                    } else {
                        if closed_with_comma {
                            let comma_end_msg = Message::SkipEndTo((self.next_buffer_index, i));
                            self.queue.push(comma_end_msg);
                            // The comma is treated as a non-comma opener here.
                            self.waiting_condition.opener_is_comma = false;
                            self.waiting_condition.update_position((self.next_buffer_index, i));
                            self.state = ScannerState::MeetKeyCandOpener;
                        } else {
                            // The end instruction is deferred until the next
                            // non-whitespace byte settles the comma question.
                            self.skip_end_msg_cache = skip_end_msg;
                            self.state = ScannerState::FindingNextComma;
                        }
                    }
                }
                proof {
                    assert(step_checking(pre, chr, pos) is Ok);
                    assert(self@.queue =~= step_checking(pre, chr, pos)->Ok_0.queue);
                    assert(self@ =~= step_checking(pre, chr, pos)->Ok_0);
                }
                Ok(())
            },
            Err(e) => Err(e),
        }
    }

    fn do_finding_comma(&mut self, chr: u8, i: usize)
        requires
            old(self).state is FindingNextComma,
        ensures
            final(self)@ == step_finding_comma(
                old(self)@,
                chr,
                (old(self)@.next_buffer_index, i as int),
            ),
            final(self).next_buffer_index == old(self).next_buffer_index,
    {
        let ghost pre = self@;
        let ghost pos = (pre.next_buffer_index, i as int);
        match chr {
            SPACE_CHR | TAB_CHR | NEWLINE_CHR | RETURN_CHR => {},
            COMMA_CHR => {
                let skip_end_msg = Message::SkipEndTo((self.next_buffer_index, i));
                self.queue.push(skip_end_msg);
                // The comma is treated as a non-comma opener here.
                self.waiting_condition.opener_is_comma = false;
                self.waiting_condition.update_position((self.next_buffer_index, i));
                self.state = ScannerState::MeetKeyCandOpener;
            },
            _ => {
                self.queue.push(self.skip_end_msg_cache);
                // From here the byte is judged as in the waiting phase.
                let meet_key_opener = self.waiting_condition.check_key_opener(&chr);
                if meet_key_opener {
                    self.waiting_condition.update_position((self.next_buffer_index, i));
                    self.state = ScannerState::MeetKeyCandOpener;
                } else {
                    self.state = ScannerState::WaitingNextKey;
                }
            },
        }
        proof {
            assert(self@.queue =~= step_finding_comma(pre, chr, pos).queue);
            assert(self@ =~= step_finding_comma(pre, chr, pos));
        }
    }

    /// Consumes one chunk of bytes, in stream order with no gaps; the scanner's
    /// new value is exactly `scan_chunk` of its old value and the chunk.
    pub fn process_new_buffer(&mut self, buffer: &[u8]) -> (r: Result<(), ScanError>)
        ensures
            match scan_chunk(old(self)@, buffer@) {
                Ok(m2) => r is Ok && final(self)@ == m2,
                Err(e) => r == Err::<(), ScanError>(e),
            },
    {
        if self.next_buffer_index == usize::MAX {
            return Err(ScanError::LimitExceeded);
        }
        let ghost m0 = self@;
        let mut i: usize = 0;
        while i < buffer.len()
            invariant
                i <= buffer@.len(),
                self@.next_buffer_index == m0.next_buffer_index,
                m0.next_buffer_index < usize::MAX,
                scan_prefix(m0, buffer@, i as int) == Ok::<ScanModel, ScanError>(self@),
                scan_chunk(old(self)@, buffer@) == scan_chunk(m0, buffer@),
            decreases buffer@.len() - i,
        {
            let chr = buffer[i];
            let ghost pre = self@;
            let ghost pos = (m0.next_buffer_index, i as int);
            match self.state {
                ScannerState::WaitingNextKey => {
                    self.do_waiting(chr, i);
                },
                ScannerState::MeetKeyCandOpener => {
                    self.do_meet_opener(chr, i);
                },
                ScannerState::ConfirmingKey => {
                    self.do_confirming(chr);
                },
                ScannerState::DefiningValueType => {
                    if let Err(e) = self.do_defining(chr) {
                        proof {
                            assert(scan_prefix(m0, buffer@, i + 1) == Err::<ScanModel, ScanError>(
                                e,
                            ));
                            lemma_scan_prefix_err(m0, buffer@, i + 1, buffer@.len() as int);
                        }
                        return Err(e);
                    }
                },
                ScannerState::CheckingValueRange => {
                    if let Err(e) = self.do_checking(chr, i) {
                        proof {
                            assert(scan_prefix(m0, buffer@, i + 1) == Err::<ScanModel, ScanError>(
                                e,
                            ));
                            lemma_scan_prefix_err(m0, buffer@, i + 1, buffer@.len() as int);
                        }
                        return Err(e);
                    }
                },
                ScannerState::FindingNextComma => {
                    self.do_finding_comma(chr, i);
                },
            }
            proof {
                assert(scan_byte(pre, chr, pos) == Ok::<ScanModel, ScanError>(self@));
                assert(scan_prefix(m0, buffer@, i + 1) == Ok::<ScanModel, ScanError>(self@));
            }
            i = i + 1;
        }
        self.next_buffer_index = self.next_buffer_index + 1;
        proof {
            assert(scan_chunk(m0, buffer@) == Ok::<ScanModel, ScanError>(self@)) by {
                assert(self@ =~= ScanModel {
                    next_buffer_index: m0.next_buffer_index + 1,
                    ..scan_prefix(m0, buffer@, buffer@.len() as int)->Ok_0
                });
            }
        }
        Ok(())
    }
}

} // verus!
