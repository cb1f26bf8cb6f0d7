use state_store::errors::StoreError;
use state_store::json::{chars_of, render, str_eq, u64_to_string, JsonValue};
use state_store::parse::parse;

fn roundtrip(text: &str) {
    let v = parse(text).unwrap();
    assert_eq!(render(&v), text);
}

#[test]
fn atoms_round_trip() {
    roundtrip("null");
    roundtrip("true");
    roundtrip("false");
    roundtrip("0");
    roundtrip("7");
    roundtrip("42");
    roundtrip("-1");
    roundtrip("1234567890");
    roundtrip("9223372036854775807");
    roundtrip("-9223372036854775808");
}

#[test]
fn strings_round_trip() {
    roundtrip("\"\"");
    roundtrip("\"a\"");
    roundtrip("\"hello world\"");
    roundtrip("\"a\\\"b\"");
    roundtrip("\"back\\\\slash\"");
    roundtrip("\"tab\\u0009and\\u000anewline\"");
}

#[test]
fn containers_round_trip() {
    roundtrip("[]");
    roundtrip("{}");
    roundtrip("[1,2,3]");
    roundtrip("[[],[null],{\"k\":true}]");
    roundtrip("{\"k\":[1,-2,null,true,false,\"x\"]}");
    roundtrip("{\"a\":{\"b\":{\"c\":[]}}}");
}

#[test]
fn render_escapes_controls_quotes_and_backslashes() {
    let v = JsonValue::Str(String::from("a\"b\\c\nd\te"));
    assert_eq!(render(&v), "\"a\\\"b\\\\c\\u000ad\\u0009e\"");
}

#[test]
fn render_writes_integers_in_decimal() {
    assert_eq!(render(&JsonValue::Int(0)), "0");
    assert_eq!(render(&JsonValue::Int(907)), "907");
    assert_eq!(render(&JsonValue::Int(-35)), "-35");
    assert_eq!(render(&JsonValue::Int(i64::MIN)), "-9223372036854775808");
    assert_eq!(render(&JsonValue::Int(i64::MAX)), "9223372036854775807");
}

#[test]
fn u64_to_string_writes_decimal() {
    assert_eq!(u64_to_string(0), "0");
    assert_eq!(u64_to_string(10), "10");
    assert_eq!(u64_to_string(18446744073709551615), "18446744073709551615");
}

#[test]
fn parse_rejects_text_that_is_not_canonical() {
    for bad in [
        "",
        " ",
        "nul",
        "nullx",
        "TRUE",
        "01",
        "-0",
        "1.5",
        "1e3",
        " 1",
        "1 ",
        "[1, 2]",
        "{\"a\": 1}",
        "[1",
        "{\"a\"",
        "{\"a\":}",
        "[,]",
        "{}x",
        "\"unterminated",
        "\"bad\\qescape\"",
        "\"\\u0041\"",
        "\"raw\tcontrol\"",
        "9223372036854775808",
        "-9223372036854775809",
    ] {
        assert!(
            matches!(parse(bad), Err(StoreError::Parse)),
            "expected a parse error for {:?}",
            bad
        );
    }
}

#[test]
fn parse_reads_canonical_escapes_back() {
    let v = parse("\"a\\\"b\\\\c\\u0000\"").unwrap();
    match v {
        JsonValue::Str(s) => assert_eq!(s, "a\"b\\c\0"),
        _ => panic!("expected a string"),
    }
}

#[test]
fn chars_of_and_str_eq_agree_with_std() {
    let cs = chars_of("abc");
    assert_eq!(cs, vec!['a', 'b', 'c']);
    assert!(str_eq("same", "same"));
    assert!(!str_eq("same", "sam"));
    assert!(!str_eq("same", "samx"));
}
