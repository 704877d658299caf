use json_key_remover::KeyRemover;
use json_key_remover::RemoveError;

/// Feeds `input` to a fresh remover in chunks of `chunk_size` bytes,
/// then signals end of input with an empty chunk.
fn run_removal(input: &str, keys: &[&str], chunk_size: usize) -> Result<String, RemoveError> {
    let keys: Vec<String> = keys.iter().map(|k| k.to_string()).collect();
    let mut remover = KeyRemover::init(chunk_size, keys);
    let bytes = input.as_bytes();
    let mut out: Vec<u8> = Vec::new();
    let mut pos = 0;
    while pos < bytes.len() {
        let end = (pos + chunk_size).min(bytes.len());
        remover.process(&bytes[pos..end], &mut out)?;
        pos = end;
    }
    remover.process(&[], &mut out)?;
    Ok(String::from_utf8(out).unwrap())
}

#[test]
fn identity_when_removal_set_is_empty() {
    let input = "{\"a\": 1, \"b\": [true, null, {\"c\": \"x\"}], \"d\": {}}";
    for chunk_size in [1, 7, 1024] {
        assert_eq!(run_removal(input, &[], chunk_size).unwrap(), input);
    }
}

#[test]
fn identity_on_nested_document() {
    let input = "{\"k\":{\"l\":[1,2,3],\"m\":\"s\"}}";
    for chunk_size in [1, 2, 3, 5, 100] {
        assert_eq!(run_removal(input, &[], chunk_size).unwrap(), input);
    }
}

#[test]
fn chunk_size_independence() {
    let input = "{\"x\":1,\"y\":{\"deep\":[1,{\"z\":2}]},\"w\":\"tail\"}";
    let reference = run_removal(input, &["y"], 1).unwrap();
    for chunk_size in [2, 3, 7, 11, 1000] {
        assert_eq!(run_removal(input, &["y"], chunk_size).unwrap(), reference);
    }
    assert_eq!(reference, "{\"x\":1,\"w\":\"tail\"}");
}

#[test]
fn idempotence_on_the_key_dimension() {
    let input = "{\"x\":1,\"gone\":{\"a\":[1,2]},\"y\":2,\"gone2\":3}";
    let once = run_removal(input, &["gone", "gone2"], 5).unwrap();
    let twice = run_removal(&once, &["gone", "gone2"], 5).unwrap();
    assert_eq!(once, twice);
    assert_eq!(once, "{\"x\":1,\"y\":2}");
}

#[test]
fn nested_removal_drops_whole_value() {
    let input = "{\"a\":{\"x\":1},\"b\":2}";
    for chunk_size in [1, 4, 100] {
        assert_eq!(run_removal(input, &["a"], chunk_size).unwrap(), "{\"b\":2}");
    }
    let deep = "{\"keep\":0,\"drop\":[{\"p\":[1,2,{\"q\":3}]},\"s\"],\"tail\":4}";
    for chunk_size in [1, 6, 100] {
        assert_eq!(
            run_removal(deep, &["drop"], chunk_size).unwrap(),
            "{\"keep\":0,\"tail\":4}"
        );
    }
}

#[test]
fn escaped_quotes_are_not_boundaries() {
    let input = "{\"key_0_2_0\":\"a\\\"b\",\"keep\":1}";
    for chunk_size in [1, 3, 100] {
        assert_eq!(
            run_removal(input, &["key_0_2_0"], chunk_size).unwrap(),
            "{\"keep\":1}"
        );
    }
    let backslash = "{\"k\":\"a\\\\\",\"keep\":1}";
    assert_eq!(run_removal(backslash, &["k"], 1).unwrap(), "{\"keep\":1}");
}

#[test]
fn escaped_key_matches_decoded_form() {
    // A key written with an escaped quote matches the decoded key string.
    let input = "{\"a\\\"b\":1,\"keep\":2}";
    assert_eq!(run_removal(input, &["a\"b"], 1).unwrap(), "{\"keep\":2}");
}

#[test]
fn boundary_spanning_values() {
    let input = "{\"a\":{\"b\":1},\"c\":2}";
    assert_eq!(run_removal(input, &["a"], 1).unwrap(), "{\"c\":2}");
    assert_eq!(run_removal(input, &["a"], 2).unwrap(), "{\"c\":2}");
}

#[test]
fn comma_placement_middle_key() {
    let input = "{\"x\":1,\"y\":2,\"z\":3}";
    for chunk_size in [1, 4, 100] {
        assert_eq!(
            run_removal(input, &["y"], chunk_size).unwrap(),
            "{\"x\":1,\"z\":3}"
        );
    }
}

#[test]
fn comma_placement_last_key() {
    let input = "{\"x\":1,\"y\":2}";
    for chunk_size in [1, 4, 100] {
        assert_eq!(run_removal(input, &["y"], chunk_size).unwrap(), "{\"x\":1}");
    }
}

#[test]
fn malformed_key_without_colon_is_detected() {
    let input = "{\"x\" 1}";
    for chunk_size in [1, 100] {
        assert_eq!(
            run_removal(input, &["x"], chunk_size),
            Err(RemoveError::MalformedInput)
        );
    }
}

#[test]
fn first_key_of_object_is_removed() {
    let input = "{\"a\":1,\"b\":2}";
    for chunk_size in [1, 100] {
        assert_eq!(run_removal(input, &["a"], chunk_size).unwrap(), "{\"b\":2}");
    }
}

#[test]
fn string_value_removed_with_following_comma() {
    let input = "{\"k\":\"v\",\"keep\":1}";
    assert_eq!(run_removal(input, &["k"], 1).unwrap(), "{\"keep\":1}");
}

#[test]
fn whitespace_heavy_document() {
    let input = "{ \"a\" : 1 ,\n\t\"b\" : { \"c\" : 2 } }";
    for chunk_size in [1, 5, 100] {
        assert_eq!(
            run_removal(input, &["b"], chunk_size).unwrap(),
            "{ \"a\" : 1  }"
        );
    }
}

#[test]
fn empty_input_stays_empty() {
    assert_eq!(run_removal("", &[], 4).unwrap(), "");
    assert_eq!(run_removal("", &["a"], 4).unwrap(), "");
}

#[test]
fn empty_object_value_is_removed() {
    let input = "{\"a\":{},\"b\":1}";
    for chunk_size in [1, 3, 100] {
        assert_eq!(run_removal(input, &["a"], chunk_size).unwrap(), "{\"b\":1}");
    }
}

#[test]
fn array_value_is_removed() {
    let input = "{\"a\":[[1,2],[3]],\"b\":4}";
    for chunk_size in [1, 5, 100] {
        assert_eq!(run_removal(input, &["a"], chunk_size).unwrap(), "{\"b\":4}");
    }
}

#[test]
fn identity_with_comma_inside_string() {
    // The comma inside the string value looks like a key-candidate opener
    // and the value's closing quote starts a phantom key; the end-of-input
    // step must still hand the whole document out.
    let input = "{\"a\":\",\"}";
    for chunk_size in [1, 3, 9, 100] {
        assert_eq!(run_removal(input, &[], chunk_size).unwrap(), input);
    }
}

#[test]
fn last_key_with_bare_value_is_removed() {
    // The value terminates at the document's final brace, so the end
    // instruction is still deferred when the input ends.
    let input = "{\"y\":2}";
    for chunk_size in [1, 2, 3, 4, 5, 6, 7, 100] {
        assert_eq!(run_removal(input, &["y"], chunk_size).unwrap(), "{}");
    }
}

#[test]
fn only_key_is_removed() {
    let input = "{\"a\":1}";
    for chunk_size in [1, 4, 100] {
        assert_eq!(run_removal(input, &["a"], chunk_size).unwrap(), "{}");
    }
}
