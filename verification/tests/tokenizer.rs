//! Token parsing: the priority of numeric forms, hex, floats, and the
//! string fallback.

use mint_cli::data::tokenize::{chars_of, parse_token, tokenize_string_value};
use mint_cli::layout::value::{DataValue, ValueSource};

fn parse(s: &str) -> Option<DataValue> {
    parse_token(&chars_of(s))
}

#[test]
fn unsigned_decimal_token() {
    assert!(matches!(parse("42"), Some(DataValue::U64(42))));
    assert!(matches!(parse("0"), Some(DataValue::U64(0))));
    assert!(matches!(
        parse("18446744073709551615"),
        Some(DataValue::U64(u64::MAX))
    ));
    // one past the limit cannot be a number
    assert!(parse("18446744073709551616").is_none());
}

#[test]
fn negative_decimal_token() {
    assert!(matches!(parse("-1"), Some(DataValue::I64(-1))));
    assert!(matches!(
        parse("-9223372036854775808"),
        Some(DataValue::I64(i64::MIN))
    ));
    assert!(parse("-9223372036854775809").is_none());
}

#[test]
fn hex_token() {
    assert!(matches!(parse("0x10"), Some(DataValue::U64(16))));
    assert!(matches!(parse("0XFF"), Some(DataValue::U64(255))));
    assert!(matches!(parse("0xE5"), Some(DataValue::U64(0xE5))));
    assert!(parse("0x").is_none());
    assert!(parse("0xG1").is_none());
}

#[test]
fn float_tokens_round_to_nearest_binary64() {
    let cases = [
        ("1.5", 1.5f64),
        ("2.5", 2.5),
        ("3.5", 3.5),
        ("0.1", 0.1),
        ("-0.25", -0.25),
        ("12.", 12.0),
        (".5", 0.5),
        ("3e2", 300.0),
        ("1.5e-3", 0.0015),
        ("-2E+1", -20.0),
    ];
    for (text, expect) in cases {
        match parse(text) {
            Some(DataValue::F64(bits)) => {
                assert_eq!(
                    f64::from_bits(bits),
                    expect,
                    "token {:?} parsed to wrong value",
                    text
                );
            }
            other => panic!("token {:?} parsed as {:?}", text, other),
        }
    }
}

#[test]
fn boolean_tokens_ignore_case() {
    assert!(matches!(parse("true"), Some(DataValue::Bool(true))));
    assert!(matches!(parse("TRUE"), Some(DataValue::Bool(true))));
    assert!(matches!(parse("False"), Some(DataValue::Bool(false))));
    assert!(parse("truth").is_none());
}

#[test]
fn whole_string_falls_back_when_any_token_fails() {
    let v = tokenize_string_value("1 2 three");
    assert!(matches!(v, ValueSource::Single(DataValue::Str(s)) if s == "1 2 three"));

    let v = tokenize_string_value("hello world");
    assert!(matches!(v, ValueSource::Single(DataValue::Str(s)) if s == "hello world"));
}

#[test]
fn ascii_whitespace_separates_tokens() {
    // form feed counts as ASCII whitespace
    let v = tokenize_string_value("1\u{000C}2");
    let ValueSource::Array(arr) = v else {
        panic!("expected array");
    };
    assert_eq!(arr.len(), 2);
    assert!(matches!(arr[0], DataValue::U64(1)));
    assert!(matches!(arr[1], DataValue::U64(2)));
}

#[test]
fn mixed_numeric_tokens_parse_in_order() {
    let v = tokenize_string_value("1, -2; 0x10 2.5 true");
    let ValueSource::Array(arr) = v else {
        panic!("expected array");
    };
    assert_eq!(arr.len(), 5);
    assert!(matches!(arr[0], DataValue::U64(1)));
    assert!(matches!(arr[1], DataValue::I64(-2)));
    assert!(matches!(arr[2], DataValue::U64(16)));
    assert!(matches!(arr[3], DataValue::F64(b) if f64::from_bits(b) == 2.5));
    assert!(matches!(arr[4], DataValue::Bool(true)));
}
