//! Streaming removal of configured object keys from JSON-formatted bytes.
//!
//! A byte-level scanner classifies the stream and emits deletion
//! instructions; a buffer coordinator holds the not-yet-decided chunks,
//! excises the instructed ranges and hands out every chunk as soon as no
//! later instruction can still touch it. Memory use is bounded by the
//! retained window, not by the input size.

use vstd::prelude::*;

pub mod scanner;

pub use scanner::Message;
pub use scanner::Scanner;
pub use scanner::ScannerState;

use scanner::ChrIndex;
use scanner::MsgModel;
use scanner::ScanError;
use scanner::ScanModel;
use scanner::bytes_of_keys;
use scanner::finish_scan;
use scanner::init_scan_model;
use scanner::scan_chunk;
use vstd::slice::slice_to_vec;

verus! {

/// Why a run had to stop.
#[derive(Debug, Clone, Copy, PartialEq, Eq, Structural)]
pub enum RemoveError {
    /// A key in the removal set was not followed (after whitespace) by a colon.
    MalformedInput,
    /// A machine counter (chunk index or nesting depth) reached its maximum.
    LimitExceeded,
    /// An internal invariant was violated; it never occurs when the
    /// coordinator's algorithm is implemented correctly.
    Internal,
}

/// The coordinator as a mathematical value.
#[verifier::ext_equal]
pub struct CoordModel {
    /// The scanner it drives.
    pub scan: ScanModel,
    /// Configured chunk size in bytes.
    pub buffer_size: int,
    /// Index of the oldest chunk still retained.
    pub first_buffer_index: int,
    /// Live bytes of each retained chunk, oldest first.
    pub buffers: Seq<Seq<u8>>,
    /// Deletion instructions drained from the scanner and not yet applied.
    pub msgs: Seq<MsgModel>,
    /// Whether a deletion span carried over the last flush boundary.
    pub skip_mode: bool,
}

/// The global position a deletion instruction refers to.
pub open spec fn msg_pos(m: MsgModel) -> (int, int) {
    match m {
        MsgModel::StartFrom(p) => p,
        MsgModel::EndTo(p) => p,
        MsgModel::EndPreviousTo(p) => p,
    }
}

/// How many instructions, from the front, refer to chunks at or before
/// `last`; the count stops at the first instruction that refers further.
pub open spec fn msg_prefix_len(msgs: Seq<MsgModel>, last: int) -> int
    decreases msgs.len(),
{
    if msgs.len() == 0 {
        0
    } else if msg_pos(msgs[0]).0 > last {
        0
    } else {
        1 + msg_prefix_len(msgs.skip(1), last)
    }
}

/// The position one byte before `p` in the retained window, if it can be
/// resolved there: same chunk one byte earlier, or the last live byte of
/// the previous retained chunk.
pub open spec fn prev_pos(bufs: Seq<Seq<u8>>, first: int, p: (int, int)) -> Option<(int, int)> {
    if p.1 > 0 {
        Some((p.0, p.1 - 1))
    } else {
        let rel = p.0 - 1 - first;
        if 0 <= rel && rel < bufs.len() && bufs[rel].len() > 0 {
            Some((p.0 - 1, bufs[rel].len() - 1))
        } else {
            None
        }
    }
}

/// A boundary candidate, kept only when it lies within the retained window.
pub open spec fn bounded_boundary(x: int, first: int) -> Option<int> {
    if x >= first {
        Some(x)
    } else {
        None
    }
}

/// The highest chunk index that is safe to flush, per scanner phase: no
/// instruction still to come can refer to it or to an earlier chunk.
/// `None` defers the flush; the error reports a deferred end instruction
/// of the wrong kind.
pub open spec fn flush_boundary_of(m: CoordModel) -> Result<Option<int>, RemoveError> {
    match m.scan.state {
        ScannerState::WaitingNextKey => Ok(
            bounded_boundary(m.scan.next_buffer_index - 1, m.first_buffer_index),
        ),
        ScannerState::CheckingValueRange => {
            if m.scan.next_buffer_index < 2 {
                Ok(None)
            } else {
                Ok(bounded_boundary(m.scan.next_buffer_index - 2, m.first_buffer_index))
            }
        },
        ScannerState::FindingNextComma => {
            match m.scan.end_cache {
                MsgModel::StartFrom(_) => Err(RemoveError::Internal),
                MsgModel::EndTo(p) => Ok(bounded_boundary(p.0 - 1, m.first_buffer_index)),
                MsgModel::EndPreviousTo(p) => {
                    match prev_pos(m.buffers, m.first_buffer_index, p) {
                        None => Ok(None),
                        Some(q) => Ok(bounded_boundary(q.0 - 1, m.first_buffer_index)),
                    }
                },
            }
        },
        _ => {
            // MeetKeyCandOpener, ConfirmingKey and DefiningValueType may still
            // decide that the remembered opener begins a deletion, so only
            // chunks strictly before the one preceding it are safe.
            let op = m.scan.opener_pos;
            let c0 = if op.1 > 0 {
                op.0
            } else {
                op.0 - 1
            };
            if m.first_buffer_index < c0 {
                Ok(Some(c0 - 1))
            } else {
                Ok(None)
            }
        },
    }
}

/// One deletion range excised from the retained chunks: within one chunk a
/// sub-range is cut out; across chunks the start chunk loses its tail, the
/// chunks between are emptied and the end chunk loses its head.
pub open spec fn excise_range(bufs: Seq<Seq<u8>>, first: int, s: (int, int), e: (int, int)) -> Result<
    Seq<Seq<u8>>,
    RemoveError,
> {
    let srel = s.0 - first;
    let erel = e.0 - first;
    if !(0 <= srel && srel < bufs.len() && 0 <= erel && erel < bufs.len()) {
        Err(RemoveError::Internal)
    } else if srel < erel {
        if e.1 + 1 > bufs[erel].len() || s.1 > bufs[srel].len() || s.1 < 0 || e.1 < 0 {
            Err(RemoveError::Internal)
        } else {
            Ok(
                Seq::new(
                    bufs.len(),
                    |i: int|
                        if i == srel {
                            bufs[srel].subrange(0, s.1)
                        } else if srel < i && i < erel {
                            Seq::empty()
                        } else if i == erel {
                            bufs[erel].subrange(e.1 + 1, bufs[erel].len() as int)
                        } else {
                            bufs[i]
                        },
                ),
            )
        }
    } else if srel == erel {
        if !(0 <= s.1 && s.1 <= e.1 && e.1 < bufs[srel].len()) {
            Err(RemoveError::Internal)
        } else {
            Ok(
                bufs.update(
                    srel,
                    bufs[srel].subrange(0, s.1) + bufs[srel].subrange(
                        e.1 + 1,
                        bufs[srel].len() as int,
                    ),
                ),
            )
        }
    } else {
        Err(RemoveError::Internal)
    }
}

/// One (start, end) instruction pair applied to the retained chunks; the
/// pair must be a start and an end, and an end-exclusive-previous end must
/// resolve to a position in the window.
pub open spec fn excise_one(bufs: Seq<Seq<u8>>, first: int, ms: MsgModel, me: MsgModel) -> Result<
    Seq<Seq<u8>>,
    RemoveError,
> {
    match ms {
        MsgModel::StartFrom(s) => {
            match me {
                MsgModel::StartFrom(_) => Err(RemoveError::Internal),
                MsgModel::EndTo(e) => excise_range(bufs, first, s, e),
                MsgModel::EndPreviousTo(p) => {
                    match prev_pos(bufs, first, p) {
                        None => Err(RemoveError::Internal),
                        Some(e) => excise_range(bufs, first, s, e),
                    }
                },
            }
        },
        _ => Err(RemoveError::Internal),
    }
}

/// A whole drained batch of instruction pairs applied, latest pair first,
/// so that the earlier positions a pair refers to are still valid when it
/// is applied.
pub open spec fn excise_msgs(bufs: Seq<Seq<u8>>, first: int, msgs: Seq<MsgModel>) -> Result<
    Seq<Seq<u8>>,
    RemoveError,
>
    decreases msgs.len(),
{
    if msgs.len() == 0 {
        Ok(bufs)
    } else if msgs.len() == 1 {
        Err(RemoveError::Internal)
    } else {
        match excise_msgs(bufs, first, msgs.skip(2)) {
            Err(e) => Err(e),
            Ok(b1) => excise_one(b1, first, msgs[0], msgs[1]),
        }
    }
}

/// All the bytes of a row of chunks, in order.
pub open spec fn concat_bytes(ss: Seq<Seq<u8>>) -> Seq<u8>
    decreases ss.len(),
{
    if ss.len() == 0 {
        Seq::empty()
    } else {
        concat_bytes(ss.take(ss.len() - 1)) + ss.last()
    }
}

/// The coordinator with the scanner's newly emitted instructions moved to
/// its own pending queue.
pub open spec fn drain_model(m: CoordModel) -> CoordModel {
    CoordModel {
        scan: ScanModel { queue: Seq::empty(), ..m.scan },
        msgs: m.msgs + m.scan.queue,
        ..m
    }
}

/// The flush stage once a boundary `last` is decided: the matching prefix
/// of pending instructions is pulled, a carried-over span gets a start at
/// the window's low end, a batch ending on an unmatched start gets its end
/// at the boundary and leaves skip mode on, the pairs are excised, and the
/// chunks up to the boundary leave the window as the emitted bytes.
pub open spec fn spec_flush_tail(m: CoordModel, last: int) -> Result<
    (CoordModel, Seq<u8>),
    RemoveError,
> {
    let first = m.first_buffer_index;
    let cnt = last - first + 1;
    if cnt > m.buffers.len() {
        Err(RemoveError::Internal)
    } else {
        let k = msg_prefix_len(m.msgs, last);
        let drained = m.msgs.take(k);
        let rest = m.msgs.skip(k);
        let with_start = if m.skip_mode {
            seq![MsgModel::StartFrom((first, 0))] + drained
        } else {
            drained
        };
        let needs_end = with_start.len() > 0 && with_start.last() is StartFrom;
        if needs_end && m.buffers[last - first].len() == 0 {
            Err(RemoveError::Internal)
        } else {
            let to_write = if needs_end {
                with_start.push(MsgModel::EndTo((last, m.buffers[last - first].len() - 1)))
            } else {
                with_start
            };
            if to_write.len() % 2 != 0 {
                Err(RemoveError::Internal)
            } else {
                match excise_msgs(m.buffers, first, to_write) {
                    Err(e) => Err(e),
                    Ok(bufs2) => Ok(
                        (
                            CoordModel {
                                first_buffer_index: last + 1,
                                buffers: bufs2.skip(cnt),
                                msgs: rest,
                                skip_mode: needs_end,
                                ..m
                            },
                            concat_bytes(bufs2.take(cnt)),
                        ),
                    ),
                }
            }
        }
    }
}

/// The whole decide-and-flush step that runs before a chunk is fed: before
/// the first chunk there is nothing to decide; otherwise the scanner's
/// instructions are drained and the phase table decides how far to flush.
pub open spec fn spec_flush(m: CoordModel) -> Result<(CoordModel, Seq<u8>), RemoveError> {
    if m.scan.next_buffer_index == 0 {
        Ok((m, Seq::empty()))
    } else {
        let md = drain_model(m);
        match flush_boundary_of(md) {
            Err(e) => Err(e),
            Ok(None) => Ok((md, Seq::empty())),
            Ok(Some(last)) => spec_flush_tail(md, last),
        }
    }
}

/// One chunk fed: the scanner consumes it and it joins the retained window.
pub open spec fn spec_feed(m: CoordModel, chunk: Seq<u8>) -> Result<CoordModel, RemoveError> {
    match scan_chunk(m.scan, chunk) {
        Err(ScanError::MissingColon) => Err(RemoveError::MalformedInput),
        Err(ScanError::LimitExceeded) => Err(RemoveError::LimitExceeded),
        Ok(s2) => Ok(CoordModel { scan: s2, buffers: m.buffers.push(chunk), ..m }),
    }
}

/// The end-of-input step: the scanner's deferred end instruction, if one
/// is held, becomes real and the scanner returns to waiting; then every
/// retained chunk is flushed, with all pending instructions applied — a
/// span still open (a truncated value at the end of the input) is closed
/// at the window's end and removed.
pub open spec fn spec_finish(m: CoordModel) -> Result<(CoordModel, Seq<u8>), RemoveError> {
    let md = drain_model(CoordModel { scan: finish_scan(m.scan), ..m });
    if md.buffers.len() == 0 {
        Ok((md, Seq::empty()))
    } else if md.first_buffer_index + md.buffers.len() - 1 >= usize::MAX {
        Err(RemoveError::Internal)
    } else {
        spec_flush_tail(md, md.first_buffer_index + md.buffers.len() - 1)
    }
}

/// A fresh coordinator over the given chunk size and removal set.
pub open spec fn init_coord_model(buffer_size: int, keys: Seq<Seq<u8>>) -> CoordModel {
    CoordModel {
        scan: init_scan_model(keys),
        buffer_size: buffer_size,
        first_buffer_index: 0,
        buffers: Seq::empty(),
        msgs: Seq::empty(),
        skip_mode: false,
    }
}

/// `msg_prefix_len` is the index of the first instruction referring past
/// `last`, or the whole length when none does.
proof fn lemma_msg_prefix_len_char(msgs: Seq<MsgModel>, last: int, i: int)
    requires
        0 <= i <= msgs.len(),
        forall|j: int| 0 <= j < i ==> msg_pos(#[trigger] msgs[j]).0 <= last,
        i == msgs.len() || msg_pos(msgs[i]).0 > last,
    ensures
        msg_prefix_len(msgs, last) == i,
    decreases msgs.len(),
{
    if msgs.len() > 0 {
        if msg_pos(msgs[0]).0 > last {
            assert(i == 0);
        } else {
            assert(msg_pos(msgs[0]).0 <= last);
            assert(i >= 1);
            let tail = msgs.skip(1);
            assert forall|j: int| 0 <= j < i - 1 implies msg_pos(#[trigger] tail[j]).0 <= last by {
                assert(tail[j] == msgs[j + 1]);
            }
            if i < msgs.len() {
                assert(tail[i - 1] == msgs[i]);
            }
            lemma_msg_prefix_len_char(tail, last, i - 1);
        }
    }
}

/// Once a suffix of an even batch fails to excise, every longer suffix
/// fails the same way.
proof fn lemma_excise_msgs_err(bufs: Seq<Seq<u8>>, first: int, msgs: Seq<MsgModel>, i: int, j: int)
    requires
        0 <= i <= j,
        2 * j <= msgs.len(),
        excise_msgs(bufs, first, msgs.skip(2 * j)) is Err,
    ensures
        excise_msgs(bufs, first, msgs.skip(2 * i)) == excise_msgs(bufs, first, msgs.skip(2 * j)),
    decreases j - i,
{
    if i < j {
        lemma_excise_msgs_err(bufs, first, msgs, i + 1, j);
        let s = msgs.skip(2 * i);
        assert(s.len() >= 2);
        assert(s.skip(2) =~= msgs.skip(2 * i + 2));
    }
}

/// The streaming key remover: drives a scanner over chunks fed in stream
/// order and hands out the surviving bytes of every chunk that no pending
/// or future deletion instruction can still touch.
#[derive(Debug)]
pub struct KeyRemover {
    scanner: Scanner,
    buffer_size: usize,
    first_buffer_index: usize,
    buffer_queue: Vec<Vec<u8>>,
    message_queue: Vec<Message>,
    in_skip_span: bool,
}

impl View for KeyRemover {
    type V = CoordModel;

    closed spec fn view(&self) -> CoordModel {
        CoordModel {
            scan: self.scanner@,
            buffer_size: self.buffer_size as int,
            first_buffer_index: self.first_buffer_index as int,
            buffers: self.buffer_queue.deep_view(),
            msgs: self.message_queue@.map_values(|msg: Message| msg@),
            skip_mode: self.in_skip_span,
        }
    }
}

impl KeyRemover {
    /// A fresh remover for the given chunk size and removal set.
    pub fn init(buffer_size: usize, keys_to_remove: Vec<String>) -> (r: Self)
        ensures
            r@ == init_coord_model(buffer_size as int, bytes_of_keys(keys_to_remove@)),
    {
        let scanner = Scanner::new(keys_to_remove);
        let r = Self {
            scanner,
            buffer_size,
            first_buffer_index: 0,
            buffer_queue: Vec::new(),
            message_queue: Vec::new(),
            in_skip_span: false,
        };
        proof {
            assert(r@ =~~= init_coord_model(buffer_size as int, bytes_of_keys(keys_to_remove@)));
        }
        r
    }

    /// The configured chunk size in bytes.
    pub fn buffer_size(&self) -> (r: usize)
        ensures
            r as int == self@.buffer_size,
    {
        self.buffer_size
    }

    /// The position one byte before `chr_index`, when the retained window
    /// can resolve it.
    fn previous_chr_index(&self, chr_index: ChrIndex) -> (r: Option<ChrIndex>)
        ensures
            match prev_pos(
                self@.buffers,
                self@.first_buffer_index,
                (chr_index.0 as int, chr_index.1 as int),
            ) {
                None => r is None,
                Some(q) => r is Some && ((r->0).0 as int, (r->0).1 as int) == q,
            },
    {
        if chr_index.1 > 0 {
            Some((chr_index.0, chr_index.1 - 1))
        } else if chr_index.0 == 0 {
            None
        } else {
            let pb = chr_index.0 - 1;
            if pb < self.first_buffer_index {
                None
            } else {
                let rel = pb - self.first_buffer_index;
                if rel >= self.buffer_queue.len() {
                    None
                } else {
                    let len = self.buffer_queue[rel].len();
                    if len == 0 {
                        None
                    } else {
                        Some((pb, len - 1))
                    }
                }
            }
        }
    }

    /// How many pending instructions refer to chunks at or before the
    /// boundary, stopping at the first that refers further.
    fn get_message_end_index(&self, last_buffer_index_to_write: usize) -> (r: usize)
        ensures
            r as int == msg_prefix_len(self@.msgs, last_buffer_index_to_write as int),
            r <= self.message_queue@.len(),
    {
        let ghost msgs = self@.msgs;
        let ghost last = last_buffer_index_to_write as int;
        let mut message_end_index: usize = 0;
        let mut found_stop = false;
        let mut idx: usize = 0;
        while idx < self.message_queue.len()
            invariant
                idx <= self.message_queue@.len(),
                msgs.len() == self.message_queue@.len(),
                msgs == self@.msgs,
                last == last_buffer_index_to_write as int,
                message_end_index <= idx,
                !found_stop ==> message_end_index == idx,
                !found_stop ==> forall|j: int|
                    0 <= j < idx ==> msg_pos(#[trigger] msgs[j]).0 <= last,
                found_stop ==> message_end_index < idx && msg_pos(
                    msgs[message_end_index as int],
                ).0 > last && forall|j: int|
                    0 <= j < message_end_index ==> msg_pos(#[trigger] msgs[j]).0 <= last,
            decreases self.message_queue@.len() - idx,
        {
            if !found_stop {
                let p0 = match &self.message_queue[idx] {
                    Message::SkipStartFrom(v) => v.0,
                    Message::SkipEndTo(v) => v.0,
                    Message::SkipEndPreviousTo(v) => v.0,
                };
                proof {
                    assert(msgs[idx as int] == self.message_queue@[idx as int]@);
                }
                if p0 > last_buffer_index_to_write {
                    found_stop = true;
                } else {
                    message_end_index = message_end_index + 1;
                }
            }
            idx = idx + 1;
        }
        proof {
            lemma_msg_prefix_len_char(msgs, last, message_end_index as int);
        }
        message_end_index
    }

    /// The last position of the deletion range a deferred end instruction
    /// describes, if the instruction has one and the window can resolve it.
    fn get_optional_skip_end_index(&self, message: &Message) -> (r: Option<ChrIndex>)
        ensures
            match *message {
                Message::SkipStartFrom(_) => r is None,
                Message::SkipEndTo(p) => r == Some::<ChrIndex>(p),
                Message::SkipEndPreviousTo(p) => match prev_pos(
                    self@.buffers,
                    self@.first_buffer_index,
                    (p.0 as int, p.1 as int),
                ) {
                    None => r is None,
                    Some(q) => r is Some && ((r->0).0 as int, (r->0).1 as int) == q,
                },
            },
    {
        match message {
            Message::SkipStartFrom(_) => None,
            Message::SkipEndTo(chr_index) => Some(*chr_index),
            Message::SkipEndPreviousTo(chr_index) => self.previous_chr_index(*chr_index),
        }
    }

    /// The boundary candidate `x0 - 1`, kept when it lies in the window.
    fn bounded_before(&self, x0: usize) -> (r: Option<usize>)
        ensures
            match bounded_boundary(x0 as int - 1, self@.first_buffer_index) {
                None => r is None,
                Some(b) => r is Some && r->0 as int == b && r->0 < usize::MAX,
            },
    {
        if x0 == 0 {
            None
        } else if x0 - 1 < self.first_buffer_index {
            None
        } else {
            Some(x0 - 1)
        }
    }

    /// The safe-to-flush table: the highest chunk index the
    /// current scanner phase allows to leave the window, if any.
    fn flush_boundary(&self) -> (r: Result<Option<usize>, RemoveError>)
        ensures
            match r {
                Err(e) => flush_boundary_of(self@) == Err::<Option<int>, RemoveError>(e),
                Ok(None) => flush_boundary_of(self@) == Ok::<Option<int>, RemoveError>(None),
                Ok(Some(b)) => flush_boundary_of(self@) == Ok::<Option<int>, RemoveError>(
                    Some(b as int),
                ) && b < usize::MAX,
            },
    {
        match self.scanner.phase() {
            ScannerState::WaitingNextKey => Ok(self.bounded_before(self.scanner.next_index())),
            ScannerState::CheckingValueRange => {
                let nbi = self.scanner.next_index();
                if nbi < 2 {
                    Ok(None)
                } else {
                    Ok(self.bounded_before(nbi - 1))
                }
            },
            ScannerState::FindingNextComma => {
                let cached_skip_end_msg = self.scanner.end_msg_cache();
                match self.get_optional_skip_end_index(&cached_skip_end_msg) {
                    None => {
                        match cached_skip_end_msg {
                            Message::SkipStartFrom(_) => Err(RemoveError::Internal),
                            _ => Ok(None),
                        }
                    },
                    Some(chr_index) => Ok(self.bounded_before(chr_index.0)),
                }
            },
            _ => {
                let op = self.scanner.key_cand_opener_index();
                let c0_ok: Option<usize> = if op.1 > 0 {
                    Some(op.0)
                } else if op.0 == 0 {
                    None
                } else {
                    Some(op.0 - 1)
                };
                match c0_ok {
                    Some(c0) => {
                        if self.first_buffer_index < c0 {
                            Ok(Some(c0 - 1))
                        } else {
                            Ok(None)
                        }
                    },
                    None => Ok(None),
                }
            },
        }
    }

    /// One (start, end) instruction pair physically excised from the
    /// retained chunks, exactly as `excise_one` describes.
    fn excise_pair(&mut self, start_msg: Message, end_msg: Message) -> (r: Result<(), RemoveError>)
        ensures
            match excise_one(
                old(self)@.buffers,
                old(self)@.first_buffer_index,
                start_msg@,
                end_msg@,
            ) {
                Err(e) => r == Err::<(), RemoveError>(e),
                Ok(b2) => r is Ok && final(self)@ == (CoordModel { buffers: b2, ..old(self)@ }),
            },
    {
        let ghost bufs0 = self@.buffers;
        let ghost first0 = self@.first_buffer_index;
        let s: ChrIndex = match start_msg {
            Message::SkipStartFrom(p) => p,
            _ => {
                return Err(RemoveError::Internal);
            },
        };
        let e: ChrIndex = match end_msg {
            Message::SkipEndTo(p) => p,
            Message::SkipEndPreviousTo(p) => {
                match self.previous_chr_index(p) {
                    Some(q) => q,
                    None => {
                        return Err(RemoveError::Internal);
                    },
                }
            },
            Message::SkipStartFrom(_) => {
                return Err(RemoveError::Internal);
            },
        };
        let ghost sg = (s.0 as int, s.1 as int);
        let ghost eg = (e.0 as int, e.1 as int);
        proof {
            assert(excise_one(bufs0, first0, start_msg@, end_msg@) == excise_range(
                bufs0,
                first0,
                sg,
                eg,
            ));
        }
        if s.0 < self.first_buffer_index || e.0 < self.first_buffer_index {
            return Err(RemoveError::Internal);
        }
        let srel = s.0 - self.first_buffer_index;
        let erel = e.0 - self.first_buffer_index;
        if srel >= self.buffer_queue.len() || erel >= self.buffer_queue.len() {
            return Err(RemoveError::Internal);
        }
        if srel < erel {
            let elen = self.buffer_queue[erel].len();
            if e.1 >= elen {
                return Err(RemoveError::Internal);
            }
            let slen = self.buffer_queue[srel].len();
            if s.1 > slen {
                return Err(RemoveError::Internal);
            }
            proof {
                assert(bufs0[srel as int] == self.buffer_queue@[srel as int].deep_view());
                assert(bufs0[srel as int].len() == slen);
                assert(bufs0[erel as int] == self.buffer_queue@[erel as int].deep_view());
                assert(bufs0[erel as int].len() == elen);
            }
            let ghost tail_seq = bufs0[erel as int].subrange(
                eg.1 + 1,
                bufs0[erel as int].len() as int,
            );
            let new_tail = byte_subrange(&self.buffer_queue[erel], e.1 + 1, elen);
            self.buffer_queue[erel] = new_tail;
            proof {
                assert(self.buffer_queue.deep_view()[erel as int] =~= tail_seq);
            }
            let mut mid = srel + 1;
            while mid < erel
                invariant
                    srel < erel < self.buffer_queue@.len(),
                    srel + 1 <= mid <= erel,
                    self.buffer_queue@.len() == bufs0.len(),
                    self@.first_buffer_index == first0,
                    self@.scan == old(self)@.scan,
                    self@.msgs == old(self)@.msgs,
                    self@.skip_mode == old(self)@.skip_mode,
                    self@.buffer_size == old(self)@.buffer_size,
                    forall|i: int|
                        0 <= i < bufs0.len() ==> #[trigger] self.buffer_queue.deep_view()[i] == (
                        if i == erel {
                            tail_seq
                        } else if srel < i && i < mid {
                            Seq::<u8>::empty()
                        } else {
                            bufs0[i]
                        }),
                decreases erel - mid,
            {
                let ghost pre_deep = self.buffer_queue.deep_view();
                let empty_buf: Vec<u8> = Vec::new();
                self.buffer_queue[mid] = empty_buf;
                proof {
                    assert forall|i: int|
                        0 <= i < bufs0.len() implies #[trigger] self.buffer_queue.deep_view()[i]
                        == (if i == erel {
                            tail_seq
                        } else if srel < i && i < mid + 1 {
                            Seq::<u8>::empty()
                        } else {
                            bufs0[i]
                        }) by {
                        if i == mid {
                            assert(self.buffer_queue.deep_view()[i] =~= Seq::<u8>::empty());
                        } else {
                            assert(self.buffer_queue.deep_view()[i] == pre_deep[i]);
                        }
                    }
                }
                mid = mid + 1;
            }
            proof {
                assert(self.buffer_queue.deep_view()[srel as int] == bufs0[srel as int]);
                assert(self.buffer_queue@[srel as int]@.len() == bufs0[srel as int].len());
            }
            let ghost pre_deep2 = self.buffer_queue.deep_view();
            let new_head = byte_subrange(&self.buffer_queue[srel], 0, s.1);
            self.buffer_queue[srel] = new_head;
            proof {
                let target = excise_range(bufs0, first0, sg, eg)->Ok_0;
                assert forall|i: int|
                    0 <= i < bufs0.len() implies #[trigger] self.buffer_queue.deep_view()[i] =~=
                    target[i] by {
                    if i == srel {
                        assert(self.buffer_queue.deep_view()[i] =~= bufs0[srel as int].subrange(
                            0,
                            sg.1,
                        ));
                    } else {
                        assert(self.buffer_queue.deep_view()[i] == pre_deep2[i]);
                    }
                }
                assert(self.buffer_queue.deep_view() =~~= target);
                assert(self@ =~~= (CoordModel { buffers: target, ..old(self)@ }));
            }
            Ok(())
        } else if srel == erel {
            let blen = self.buffer_queue[srel].len();
            if !(s.1 <= e.1 && e.1 < blen) {
                return Err(RemoveError::Internal);
            }
            let mut nv = byte_subrange(&self.buffer_queue[srel], 0, s.1);
            append_byte_range(&mut nv, &self.buffer_queue[srel], e.1 + 1, blen);
            self.buffer_queue[srel] = nv;
            proof {
                let target = excise_range(bufs0, first0, sg, eg)->Ok_0;
                assert(self.buffer_queue.deep_view()[srel as int] =~= bufs0[srel as int].subrange(
                    0,
                    sg.1,
                ) + bufs0[srel as int].subrange(eg.1 + 1, bufs0[srel as int].len() as int));
                assert(self.buffer_queue.deep_view() =~~= target);
                assert(self@ =~~= (CoordModel { buffers: target, ..old(self)@ }));
            }
            Ok(())
        } else {
            Err(RemoveError::Internal)
        }
    }

    /// The flush stage once the boundary `last` is decided, exactly as
    /// `spec_flush_tail` describes: pull the matching instruction prefix,
    /// complete it across the boundary, excise, write out and retire.
    #[verifier::loop_isolation(false)]
    #[verifier::rlimit(80)]
    fn flush_to(&mut self, last: usize, out: &mut Vec<u8>) -> (r: Result<(), RemoveError>)
        requires
            old(self)@.first_buffer_index <= last,
            last < usize::MAX,
        ensures
            match spec_flush_tail(old(self)@, last as int) {
                Err(e) => r == Err::<(), RemoveError>(e) && final(out)@ == old(out)@,
                Ok((m2, emitted)) => r is Ok && final(self)@ == m2 && final(out)@ == old(out)@
                    + emitted,
            },
    {
        let ghost m0 = self@;
        let first = self.first_buffer_index;
        let cnt_m1 = last - first;
        if cnt_m1 >= self.buffer_queue.len() {
            return Err(RemoveError::Internal);
        }
        let cnt = cnt_m1 + 1;
        let k = self.get_message_end_index(last);
        let ghost drained = m0.msgs.take(k as int);
        let ghost rest_m = m0.msgs.skip(k as int);
        let mut rest = self.message_queue.split_off(k);
        core::mem::swap(&mut self.message_queue, &mut rest);
        let mut messages_to_write = rest;
        proof {
            assert(self@.msgs =~= rest_m);
            assert(messages_to_write@.map_values(|msg: Message| msg@) =~= drained);
        }
        if self.in_skip_span {
            messages_to_write.insert(0, Message::SkipStartFrom((first, 0)));
        }
        let ghost with_start = if m0.skip_mode {
            seq![MsgModel::StartFrom((m0.first_buffer_index, 0))] + drained
        } else {
            drained
        };
        proof {
            assert(messages_to_write@.map_values(|msg: Message| msg@) =~= with_start);
        }
        let needs_end = if messages_to_write.len() > 0 {
            match &messages_to_write[messages_to_write.len() - 1] {
                Message::SkipStartFrom(_) => true,
                _ => false,
            }
        } else {
            false
        };
        proof {
            if messages_to_write@.len() > 0 {
                assert(with_start.last() == messages_to_write@.last()@);
            }
            assert(needs_end == (with_start.len() > 0 && with_start.last() is StartFrom));
        }
        if needs_end {
            let blen = self.buffer_queue[cnt_m1].len();
            proof {
                assert(m0.buffers[last - m0.first_buffer_index]
                    == self.buffer_queue@[cnt_m1 as int].deep_view());
                assert(m0.buffers[last - m0.first_buffer_index].len() == blen);
            }
            if blen == 0 {
                return Err(RemoveError::Internal);
            }
            messages_to_write.push(Message::SkipEndTo((last, blen - 1)));
            self.in_skip_span = true;
        } else {
            self.in_skip_span = false;
        }
        let ghost to_write = if needs_end {
            with_start.push(
                MsgModel::EndTo(
                    (last as int, m0.buffers[last - m0.first_buffer_index].len() - 1),
                ),
            )
        } else {
            with_start
        };
        proof {
            assert(messages_to_write@.map_values(|msg: Message| msg@) =~= to_write);
        }
        if messages_to_write.len() % 2 != 0 {
            return Err(RemoveError::Internal);
        }
        let ghost mm = to_write;
        let ghost bufs0 = m0.buffers;
        let ghost first_g = m0.first_buffer_index;
        let ghost frame0 = self@;
        proof {
            let spec_cnt = last as int - first_g + 1;
            assert(spec_cnt == cnt as int);
            assert(spec_cnt <= m0.buffers.len());
            assert(msg_prefix_len(m0.msgs, last as int) == k as int);
            assert(mm.len() % 2 == 0);
            assert(spec_flush_tail(m0, last as int) == (match excise_msgs(bufs0, first_g, mm) {
                Err(e) => Err::<(CoordModel, Seq<u8>), RemoveError>(e),
                Ok(b2) => Ok::<(CoordModel, Seq<u8>), RemoveError>(
                    (
                        CoordModel {
                            first_buffer_index: last as int + 1,
                            buffers: b2.skip(spec_cnt),
                            msgs: rest_m,
                            skip_mode: needs_end,
                            ..m0
                        },
                        concat_bytes(b2.take(spec_cnt)),
                    ),
                ),
            }));
        }
        let np = messages_to_write.len() / 2;
        let mut pi = np;
        proof {
            assert(mm.skip(2 * pi as int) =~= Seq::<MsgModel>::empty());
        }
        while pi > 0
            invariant
                2 * np == mm.len(),
                pi <= np,
                messages_to_write@.map_values(|msg: Message| msg@) == mm,
                self@.scan == frame0.scan,
                self@.buffer_size == frame0.buffer_size,
                self@.first_buffer_index == first_g,
                self@.msgs == frame0.msgs,
                self@.skip_mode == frame0.skip_mode,
                excise_msgs(bufs0, first_g, mm.skip(2 * pi as int)) == Ok::<
                    Seq<Seq<u8>>,
                    RemoveError,
                >(self@.buffers),
                self@.buffers.len() == bufs0.len(),
                cnt <= bufs0.len(),
            decreases pi,
        {
            let sm = messages_to_write[2 * pi - 2];
            let em = messages_to_write[2 * pi - 1];
            proof {
                assert(sm@ == mm[2 * pi - 2]);
                assert(em@ == mm[2 * pi - 1]);
                assert(mm.skip(2 * (pi - 1) as int).skip(2) =~= mm.skip(2 * pi as int));
                assert(mm.skip(2 * (pi - 1) as int)[0] == mm[2 * pi - 2]);
                assert(mm.skip(2 * (pi - 1) as int)[1] == mm[2 * pi - 1]);
            }
            match self.excise_pair(sm, em) {
                Ok(()) => {
                    proof {
                        assert(excise_msgs(bufs0, first_g, mm.skip(2 * (pi - 1) as int)) == Ok::<
                            Seq<Seq<u8>>,
                            RemoveError,
                        >(self@.buffers));
                    }
                    pi = pi - 1;
                },
                Err(err) => {
                    proof {
                        assert(excise_msgs(bufs0, first_g, mm.skip(2 * (pi - 1) as int))
                            == Err::<Seq<Seq<u8>>, RemoveError>(err));
                        lemma_excise_msgs_err(bufs0, first_g, mm, 0, pi - 1);
                        assert(mm.skip(0) =~= mm);
                        assert(excise_msgs(bufs0, first_g, mm) == Err::<
                            Seq<Seq<u8>>,
                            RemoveError,
                        >(err));
                    }
                    return Err(err);
                },
            }
        }
        proof {
            assert(mm.skip(0) =~= mm);
            assert(excise_msgs(bufs0, first_g, mm) == Ok::<Seq<Seq<u8>>, RemoveError>(
                self@.buffers,
            ));
        }
        let ghost m_excised = self@;
        let mut wi: usize = 0;
        while wi < cnt
            invariant
                wi <= cnt,
                cnt <= self.buffer_queue@.len(),
                self@ == m_excised,
                out@ == old(out)@ + concat_bytes(m_excised.buffers.take(wi as int)),
            decreases cnt - wi,
        {
            let blen = self.buffer_queue[wi].len();
            proof {
                assert(m_excised.buffers[wi as int] == self.buffer_queue@[wi as int].deep_view());
                assert(m_excised.buffers[wi as int].len() == blen);
            }
            append_byte_range(out, &self.buffer_queue[wi], 0, blen);
            proof {
                let t1 = m_excised.buffers.take(wi + 1);
                assert(t1.take(wi as int) =~= m_excised.buffers.take(wi as int));
                assert(t1.last() =~= self.buffer_queue@[wi as int]@.subrange(0, blen as int));
                assert(concat_bytes(t1) == concat_bytes(m_excised.buffers.take(wi as int))
                    + t1.last());
                assert(out@ =~= old(out)@ + concat_bytes(m_excised.buffers.take(wi + 1)));
            }
            wi = wi + 1;
        }
        let mut rest2 = self.buffer_queue.split_off(cnt);
        core::mem::swap(&mut self.buffer_queue, &mut rest2);
        self.first_buffer_index = first + cnt;
        proof {
            let tail_spec = spec_flush_tail(m0, last as int);
            assert(tail_spec is Ok);
            let m2 = tail_spec->Ok_0.0;
            let emitted = tail_spec->Ok_0.1;
            assert(self.buffer_queue.deep_view() =~~= m_excised.buffers.skip(cnt as int));
            assert(self@ =~~= m2);
            assert(out@ == old(out)@ + concat_bytes(m_excised.buffers.take(cnt as int)));
            assert(emitted == concat_bytes(m_excised.buffers.take(cnt as int)));
        }
        Ok(())
    }

    /// The end-of-input step, exactly as `spec_finish` describes: the
    /// scanner's deferred end instruction, if any, becomes real, and every
    /// retained chunk is flushed with all pending instructions applied.
    fn complete_input(&mut self, out: &mut Vec<u8>) -> (r: Result<(), RemoveError>)
        ensures
            match spec_finish(old(self)@) {
                Err(e) => r == Err::<(), RemoveError>(e) && final(out)@ == old(out)@,
                Ok((m2, emitted)) => r is Ok && final(self)@ == m2 && final(out)@ == old(out)@
                    + emitted,
            },
    {
        let ghost m0 = self@;
        self.scanner.finish_input();
        let mut q = self.scanner.take_queue();
        self.message_queue.append(&mut q);
        let ghost md = drain_model(CoordModel { scan: finish_scan(m0.scan), ..m0 });
        proof {
            assert(self@.msgs =~= md.msgs);
            assert(self@ =~= md);
        }
        if self.buffer_queue.len() == 0 {
            proof {
                assert(out@ =~= out@ + Seq::<u8>::empty());
            }
            return Ok(());
        }
        let len_m1 = self.buffer_queue.len() - 1;
        if self.first_buffer_index > usize::MAX - 1 - len_m1 {
            return Err(RemoveError::Internal);
        }
        let last = self.first_buffer_index + len_m1;
        proof {
            assert(last as int == md.first_buffer_index + md.buffers.len() - 1);
        }
        self.flush_to(last, out)
    }

    /// Feeds one chunk of the stream, in order. Before the chunk is
    /// consumed, every chunk that the scanner's phase proves safe is
    /// excised and appended to `out`; the whole step is exactly
    /// `spec_flush` followed by `spec_feed`. An empty chunk signals the
    /// end of the input: a deferred end instruction becomes real and every
    /// retained chunk is flushed, exactly as `spec_finish` describes. On
    /// an error the run is aborted: bytes already appended to `out` stay,
    /// and the remover must not be fed again.
    #[verifier::rlimit(60)]
    pub fn process(&mut self, chunk: &[u8], out: &mut Vec<u8>) -> (r: Result<(), RemoveError>)
        ensures
            chunk@.len() == 0 ==> (match spec_finish(old(self)@) {
                Err(e) => r == Err::<(), RemoveError>(e) && final(out)@ == old(out)@,
                Ok((m2, emitted)) => r is Ok && final(self)@ == m2 && final(out)@ == old(out)@
                    + emitted,
            }),
            chunk@.len() > 0 ==> (match spec_flush(old(self)@) {
                Err(e) => r == Err::<(), RemoveError>(e) && final(out)@ == old(out)@,
                Ok((m1, emitted)) => final(out)@ == old(out)@ + emitted && (match spec_feed(
                    m1,
                    chunk@,
                ) {
                    Err(e2) => r == Err::<(), RemoveError>(e2),
                    Ok(m2) => r is Ok && final(self)@ == m2,
                }),
            }),
    {
        if chunk.len() == 0 {
            return self.complete_input(out);
        }
        let ghost m0 = self@;
        if self.scanner.next_index() > 0 {
            let mut q = self.scanner.take_queue();
            self.message_queue.append(&mut q);
            proof {
                assert(self@.msgs =~= drain_model(m0).msgs);
                assert(self@ =~= drain_model(m0));
            }
            match self.flush_boundary() {
                Err(e) => {
                    proof {
                        assert(spec_flush(m0) == Err::<(CoordModel, Seq<u8>), RemoveError>(e));
                    }
                    return Err(e);
                },
                Ok(None) => {
                    proof {
                        assert(spec_flush(m0) == Ok::<(CoordModel, Seq<u8>), RemoveError>(
                            (drain_model(m0), Seq::empty()),
                        ));
                        assert(out@ =~= out@ + Seq::<u8>::empty());
                    }
                },
                Ok(Some(last)) => {
                    match self.flush_to(last, out) {
                        Err(e) => {
                            proof {
                                assert(spec_flush(m0) == Err::<
                                    (CoordModel, Seq<u8>),
                                    RemoveError,
                                >(e));
                            }
                            return Err(e);
                        },
                        Ok(()) => {},
                    }
                },
            }
        } else {
            proof {
                assert(spec_flush(m0) == Ok::<(CoordModel, Seq<u8>), RemoveError>(
                    (m0, Seq::empty()),
                ));
                assert(out@ =~= out@ + Seq::<u8>::empty());
            }
        }
        let ghost m1 = self@;
        proof {
            assert(spec_flush(m0) is Ok);
            assert(spec_flush(m0)->Ok_0.0 == m1);
            assert(out@ == old(out)@ + spec_flush(m0)->Ok_0.1);
        }
        match self.scanner.process_new_buffer(chunk) {
            Ok(()) => {},
            Err(ScanError::MissingColon) => {
                return Err(RemoveError::MalformedInput);
            },
            Err(ScanError::LimitExceeded) => {
                return Err(RemoveError::LimitExceeded);
            },
        }
        let copied = slice_to_vec(chunk);
        self.buffer_queue.push(copied);
        proof {
            assert(self@.buffers =~~= m1.buffers.push(chunk@));
            assert(self@ =~~= spec_feed(m1, chunk@)->Ok_0);
        }
        Ok(())
    }
}

/// Appends `v[a..b]` to `dst`.
fn append_byte_range(dst: &mut Vec<u8>, v: &Vec<u8>, a: usize, b: usize)
    requires
        a <= b <= v@.len(),
    ensures
        final(dst)@ == old(dst)@ + v@.subrange(a as int, b as int),
{
    let mut j: usize = a;
    while j < b
        invariant
            a <= j <= b <= v@.len(),
            dst@ == old(dst)@ + v@.subrange(a as int, j as int),
        decreases b - j,
    {
        dst.push(v[j]);
        proof {
            assert(dst@ =~= old(dst)@ + v@.subrange(a as int, j + 1));
        }
        j = j + 1;
    }
    proof {
        assert(dst@ =~= old(dst)@ + v@.subrange(a as int, b as int));
    }
}

/// A fresh vector holding `v[a..b]`.
fn byte_subrange(v: &Vec<u8>, a: usize, b: usize) -> (r: Vec<u8>)
    requires
        a <= b <= v@.len(),
    ensures
        r@ == v@.subrange(a as int, b as int),
{
    let mut r: Vec<u8> = Vec::new();
    append_byte_range(&mut r, v, a, b);
    proof {
        assert(r@ =~= v@.subrange(a as int, b as int));
    }
    r
}


/// One `process` call as a whole: for the empty end-of-input chunk the
/// completion step, otherwise the decide-and-flush step, then the chunk fed.
pub open spec fn step_model(m: CoordModel, chunk: Seq<u8>) -> Result<
    (CoordModel, Seq<u8>),
    RemoveError,
> {
    if chunk.len() == 0 {
        spec_finish(m)
    } else {
        match spec_flush(m) {
            Err(e) => Err(e),
            Ok((m1, emitted)) => match spec_feed(m1, chunk) {
                Err(e) => Err(e),
                Ok(m2) => Ok((m2, emitted)),
            },
        }
    }
}

/// A whole run: every chunk fed in order through `step_model`, with all the
/// emitted bytes collected in order.
pub open spec fn run_model(m: CoordModel, chunks: Seq<Seq<u8>>) -> Result<
    (CoordModel, Seq<u8>),
    RemoveError,
>
    decreases chunks.len(),
{
    if chunks.len() == 0 {
        Ok((m, Seq::empty()))
    } else {
        match run_model(m, chunks.take(chunks.len() - 1)) {
            Err(e) => Err(e),
            Ok((mk, outk)) => match step_model(mk, chunks.last()) {
                Err(e) => Err(e),
                Ok((mk1, em)) => Ok((mk1, outk + em)),
            },
        }
    }
}

/// The bytes of two rows of chunks concatenate as the rows do.
proof fn lemma_concat_bytes_app(x: Seq<Seq<u8>>, y: Seq<Seq<u8>>)
    ensures
        concat_bytes(x + y) == concat_bytes(x) + concat_bytes(y),
    decreases y.len(),
{
    if y.len() == 0 {
        assert(x + y =~= x);
        assert(concat_bytes(x) + concat_bytes(y) =~= concat_bytes(x));
    } else {
        lemma_concat_bytes_app(x, y.take(y.len() - 1));
        let z = x + y;
        assert(z.take(z.len() - 1) =~= x + y.take(y.len() - 1));
        assert(z.last() == y.last());
        assert(concat_bytes(x) + concat_bytes(y.take(y.len() - 1)) + y.last() =~= concat_bytes(x)
            + concat_bytes(y));
    }
}

/// What holds of the coordinator throughout a run with an empty removal
/// set, after the chunks `fed` so far: no instruction was ever emitted, no
/// range was ever excised, and the retained window is exactly the
/// not-yet-flushed suffix of the input.
pub open spec fn no_removal_inv(m: CoordModel, buffer_size: int, fed: Seq<Seq<u8>>) -> bool {
    &&& m.scan.keys.len() == 0
    &&& m.scan.queue.len() == 0
    &&& m.msgs.len() == 0
    &&& !m.skip_mode
    &&& m.buffer_size == buffer_size
    &&& scanner::searching_phase(m.scan.state)
    &&& m.scan.next_buffer_index == fed.len()
    &&& 0 <= m.first_buffer_index <= fed.len()
    &&& m.buffers == fed.skip(m.first_buffer_index)
    &&& (!(m.scan.state is WaitingNextKey) ==> m.scan.opener_pos.0 < fed.len())
}

/// With an empty removal set the flush step never fails, never drops a
/// byte, and hands out exactly the chunks it retires, unchanged; in the
/// waiting phase it retires every retained chunk.
proof fn lemma_flush_no_keys(m: CoordModel, buffer_size: int, fed: Seq<Seq<u8>>)
    requires
        no_removal_inv(m, buffer_size, fed),
        m.scan.next_buffer_index > 0,
    ensures
        spec_flush(m) is Ok,
        ({
            let (m1, em) = spec_flush(m)->Ok_0;
            &&& m.first_buffer_index <= m1.first_buffer_index <= fed.len()
            &&& no_removal_inv(m1, buffer_size, fed)
            &&& m1.scan == m.scan
            &&& em == concat_bytes(fed.subrange(m.first_buffer_index, m1.first_buffer_index))
            &&& (m.scan.state is WaitingNextKey ==> m1.first_buffer_index == fed.len())
        }),
{
    let md = drain_model(m);
    assert(md =~= m);
    let first = m.first_buffer_index;
    let nbi = m.scan.next_buffer_index;
    assert(m.buffers.len() == fed.len() - first);
    match flush_boundary_of(m) {
        Ok(ob) => {
            match ob {
                None => {
                    assert(spec_flush(m) == Ok::<(CoordModel, Seq<u8>), RemoveError>(
                        (m, Seq::empty()),
                    ));
                    assert(fed.subrange(first, first) =~= Seq::<Seq<u8>>::empty());
                    if m.scan.state is WaitingNextKey {
                        assert(bounded_boundary(nbi - 1, first) is None);
                        assert(first == fed.len());
                    }
                },
                Some(last) => {
                    assert(first <= last);
                    if m.scan.state is WaitingNextKey {
                        assert(last == nbi - 1);
                    } else {
                        let op = m.scan.opener_pos;
                        let c0 = if op.1 > 0 {
                            op.0
                        } else {
                            op.0 - 1
                        };
                        assert(last == c0 - 1);
                        assert(op.0 < fed.len());
                    }
                    assert(last <= fed.len() - 1);
                    let cnt = last - first + 1;
                    assert(cnt <= m.buffers.len());
                    assert(msg_prefix_len(m.msgs, last) == 0);
                    assert(m.msgs.take(0) =~= Seq::<MsgModel>::empty());
                    assert(m.msgs.skip(0) =~= m.msgs);
                    assert(excise_msgs(m.buffers, first, Seq::<MsgModel>::empty()) == Ok::<
                        Seq<Seq<u8>>,
                        RemoveError,
                    >(m.buffers));
                    assert(spec_flush_tail(m, last) is Ok);
                    let (m1, em) = spec_flush_tail(m, last)->Ok_0;
                    assert(m1.first_buffer_index == last + 1);
                    assert(m1.buffers =~= fed.skip(last + 1));
                    assert(m.buffers.take(cnt) =~= fed.subrange(first, last + 1));
                    assert(em == concat_bytes(fed.subrange(first, last + 1)));
                    if m.scan.state is WaitingNextKey {
                        assert(m1.first_buffer_index == fed.len());
                    }
                },
            }
        },
        Err(_) => {
            assert(false);
        },
    }
}

/// With an empty removal set one whole `process` step preserves the run
/// invariant and emits an unchanged slice of the input.
proof fn lemma_step_no_keys(m: CoordModel, buffer_size: int, fed: Seq<Seq<u8>>, chunk: Seq<u8>)
    requires
        no_removal_inv(m, buffer_size, fed),
        fed.len() < usize::MAX,
        chunk.len() > 0,
    ensures
        step_model(m, chunk) is Ok,
        ({
            let (m2, em) = step_model(m, chunk)->Ok_0;
            &&& no_removal_inv(m2, buffer_size, fed.push(chunk))
            &&& m.first_buffer_index <= m2.first_buffer_index <= fed.len()
            &&& em == concat_bytes(fed.subrange(m.first_buffer_index, m2.first_buffer_index))
            &&& (m.scan.next_buffer_index > 0 && m.scan.state is WaitingNextKey
                ==> m2.first_buffer_index == fed.len())
        }),
{
    let nbi = m.scan.next_buffer_index;
    if nbi == 0 {
        assert(spec_flush(m) == Ok::<(CoordModel, Seq<u8>), RemoveError>((m, Seq::empty())));
        scanner::lemma_scan_chunk_no_keys(m.scan, chunk);
        let m2 = spec_feed(m, chunk)->Ok_0;
        assert(fed.len() == 0);
        assert(fed.subrange(0, 0) =~= Seq::<Seq<u8>>::empty());
        assert(m.first_buffer_index == 0);
        assert(m2.buffers =~= fed.push(chunk).skip(0));
        assert(no_removal_inv(m2, buffer_size, fed.push(chunk)));
    } else {
        lemma_flush_no_keys(m, buffer_size, fed);
        let (m1, em) = spec_flush(m)->Ok_0;
        scanner::lemma_scan_chunk_no_keys(m1.scan, chunk);
        let m2 = spec_feed(m1, chunk)->Ok_0;
        assert(m2.buffers =~= fed.push(chunk).skip(m1.first_buffer_index)) by {
            assert(m1.buffers == fed.skip(m1.first_buffer_index));
        }
        assert(no_removal_inv(m2, buffer_size, fed.push(chunk)));
    }
}

/// The run invariant, carried over a whole chunk row by induction.
proof fn lemma_run_no_keys(buffer_size: int, cs: Seq<Seq<u8>>)
    requires
        cs.len() <= usize::MAX,
        forall|i: int| 0 <= i < cs.len() ==> #[trigger] cs[i].len() > 0,
    ensures
        run_model(init_coord_model(buffer_size, Seq::empty()), cs) is Ok,
        ({
            let (mf, outb) = run_model(init_coord_model(buffer_size, Seq::empty()), cs)->Ok_0;
            &&& no_removal_inv(mf, buffer_size, cs)
            &&& outb == concat_bytes(cs.take(mf.first_buffer_index))
        }),
    decreases cs.len(),
{
    let m0 = init_coord_model(buffer_size, Seq::empty());
    if cs.len() == 0 {
        assert(no_removal_inv(m0, buffer_size, cs)) by {
            assert(m0.buffers =~= cs.skip(0));
        }
        assert(cs.take(0) =~= Seq::<Seq<u8>>::empty());
    } else {
        let head = cs.take(cs.len() - 1);
        lemma_run_no_keys(buffer_size, head);
        let (mk, outk) = run_model(m0, head)->Ok_0;
        lemma_step_no_keys(mk, buffer_size, head, cs.last());
        let (mk1, em) = step_model(mk, cs.last())->Ok_0;
        assert(head.push(cs.last()) =~= cs);
        assert(no_removal_inv(mk1, buffer_size, cs));
        assert(outk + em == concat_bytes(cs.take(mk1.first_buffer_index))) by {
            assert(outk == concat_bytes(head.take(mk.first_buffer_index)));
            assert(em == concat_bytes(
                head.subrange(mk.first_buffer_index, mk1.first_buffer_index),
            ));
            lemma_concat_bytes_app(
                head.take(mk.first_buffer_index),
                head.subrange(mk.first_buffer_index, mk1.first_buffer_index),
            );
            assert(head.take(mk.first_buffer_index) + head.subrange(
                mk.first_buffer_index,
                mk1.first_buffer_index,
            ) =~= cs.take(mk1.first_buffer_index));
        }
    }
}

/// With an empty removal set the end-of-input step never fails and hands
/// out every retained chunk unchanged.
proof fn lemma_finish_no_keys(m: CoordModel, buffer_size: int, fed: Seq<Seq<u8>>)
    requires
        no_removal_inv(m, buffer_size, fed),
        fed.len() <= usize::MAX,
    ensures
        spec_finish(m) is Ok,
        ({
            let (m2, em) = spec_finish(m)->Ok_0;
            &&& m2.first_buffer_index == fed.len()
            &&& em == concat_bytes(fed.subrange(m.first_buffer_index, fed.len() as int))
        }),
{
    let md = drain_model(CoordModel { scan: finish_scan(m.scan), ..m });
    assert(finish_scan(m.scan) == m.scan);
    assert(md =~= m);
    let first = m.first_buffer_index;
    assert(m.buffers.len() == fed.len() - first);
    if m.buffers.len() == 0 {
        assert(first == fed.len());
        assert(fed.subrange(first, first) =~= Seq::<Seq<u8>>::empty());
    } else {
        let last = first + m.buffers.len() - 1;
        assert(last == fed.len() - 1);
        assert(last < usize::MAX);
        let cnt = last - first + 1;
        assert(cnt == m.buffers.len());
        assert(msg_prefix_len(m.msgs, last) == 0);
        assert(m.msgs.take(0) =~= Seq::<MsgModel>::empty());
        assert(m.msgs.skip(0) =~= m.msgs);
        assert(excise_msgs(m.buffers, first, Seq::<MsgModel>::empty()) == Ok::<
            Seq<Seq<u8>>,
            RemoveError,
        >(m.buffers));
        assert(spec_flush_tail(m, last) is Ok);
        let (m2, em) = spec_flush_tail(m, last)->Ok_0;
        assert(m2.first_buffer_index == fed.len());
        assert(m.buffers.take(cnt) =~= fed.subrange(first, fed.len() as int));
        assert(em == concat_bytes(fed.subrange(first, fed.len() as int)));
    }
}

/// Law: with an empty removal set the transform is the identity. A run
/// over any division of the input into non-empty chunks, closed by the
/// empty end-of-input chunk, emits exactly the input bytes, in order,
/// whatever the chunk sizes were.
pub proof fn lemma_identity_when_no_keys(buffer_size: int, chunks: Seq<Seq<u8>>)
    requires
        chunks.len() < usize::MAX,
        forall|i: int| 0 <= i < chunks.len() ==> #[trigger] chunks[i].len() > 0,
    ensures
        run_model(init_coord_model(buffer_size, Seq::empty()), chunks.push(Seq::empty())) is Ok,
        run_model(
            init_coord_model(buffer_size, Seq::empty()),
            chunks.push(Seq::empty()),
        )->Ok_0.1 == concat_bytes(chunks),
{
    let m0 = init_coord_model(buffer_size, Seq::empty());
    let cs = chunks.push(Seq::<u8>::empty());
    lemma_run_no_keys(buffer_size, chunks);
    let (mk, outk) = run_model(m0, chunks)->Ok_0;
    lemma_finish_no_keys(mk, buffer_size, chunks);
    let (mf, em) = spec_finish(mk)->Ok_0;
    assert(cs.take(cs.len() - 1) =~= chunks);
    assert(cs.last() =~= Seq::<u8>::empty());
    assert(step_model(mk, cs.last()) == spec_finish(mk));
    assert(run_model(m0, cs) == Ok::<(CoordModel, Seq<u8>), RemoveError>((mf, outk + em)));
    assert(outk + em == concat_bytes(chunks)) by {
        lemma_concat_bytes_app(
            chunks.take(mk.first_buffer_index),
            chunks.subrange(mk.first_buffer_index, chunks.len() as int),
        );
        assert(chunks.take(mk.first_buffer_index) + chunks.subrange(
            mk.first_buffer_index,
            chunks.len() as int,
        ) =~= chunks);
    }
}

} // verus!
