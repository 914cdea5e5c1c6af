//! End-to-end scenarios: exact bytes in, exact bytes out.

use rekson::pipeline::process_bytes;

fn convert(input: &[u8], expected: &[u8]) {
    let out = process_bytes(input);
    assert_eq!(
        String::from_utf8_lossy(&out),
        String::from_utf8_lossy(expected)
    );
    // Applying the pipeline to its own output must change nothing.
    let again = process_bytes(&out);
    assert_eq!(
        String::from_utf8_lossy(&again),
        String::from_utf8_lossy(&out)
    );
}

#[test]
fn valid_object_passes_through() {
    convert(b"{\"a\":3,\"b\": 4}", b"{\"a\":3,\"b\": 4}");
}

#[test]
fn stray_commas_and_equals() {
    convert(b"{,\"a\":3,\"b\"= 4,}", b"{\"a\":3,\"b\": 4}");
}

#[test]
fn separators_only_give_empty_output() {
    convert(b":,:=:,,,:,,::=", b"");
}

#[test]
fn missing_top_level_comma_inserted() {
    convert(b"[][]", b"[],[]");
}

#[test]
fn missing_comma_between_scalars() {
    convert(b"1 2", b"1, 2");
}

#[test]
fn quote_normalization() {
    convert(b"{`key`:'value'}", b"{\"key\":\"value\"}");
}

#[test]
fn raw_newline_escaped_in_string() {
    convert(
        b"[\"some\nmultiline\\nescaped\"]",
        b"[\"some\\nmultiline\\nescaped\"]",
    );
}

#[test]
fn bareword_reclassification() {
    convert(
        b"[nil nul None TruE False unknown]",
        b"[null, null, null, true, false, \"unknown\"]",
    );
}

#[test]
fn bareword_key_quoted() {
    convert(b"{a:3}", b"{\"a\":3}");
}

#[test]
fn missing_colon_inserted() {
    convert(b"{\"b\"3}", b"{\"b\":3}");
}

#[test]
fn synthetic_closers_balance_stack() {
    convert(b"{[{[{", b"{[{[{}]}]}");
}

#[test]
fn parentheses_coerced_to_brackets() {
    convert(b"((),())", b"[[],[]]");
}

#[test]
fn whitespace_preserved_end_to_end() {
    convert(
        b" [  1,   2,\n\t  3     ]\n\t\t\r\n",
        b" [  1,   2,\n\t  3     ]\n\t\t\r\n",
    );
}

#[test]
fn process_is_deterministic() {
    let input: &[u8] = b"{a:3, [}} '\0' nil\\";
    assert_eq!(process_bytes(input), process_bytes(input));
}

#[test]
fn deep_nesting_is_balanced() {
    let mut input = Vec::new();
    for _ in 0..1000 {
        input.push(b'[');
    }
    let out = process_bytes(&input);
    let mut expected = input.clone();
    for _ in 0..1000 {
        expected.push(b']');
    }
    assert_eq!(out, expected);
    assert_eq!(process_bytes(&out), out);
}

#[test]
fn repaired_single_values_parse_as_json() {
    for input in [
        b"{,\"a\":3,\"b\"= 4,}".as_slice(),
        b"{`key`:'value'}",
        b"[nil nul None TruE False unknown]",
        b"{a:3}",
        b"{\"b\"3}",
        b"((),())",
        b"[\"some\nmultiline\\nescaped\"]",
    ] {
        let out = process_bytes(input);
        let text = String::from_utf8(out).expect("ascii output");
        json::parse(&text).expect("repaired output is valid JSON");
    }
}
