use rustic_json::{parse, Num, ParseError, ParseErrorKind, ParseErrorPosition, Value};

fn chars(s: &str) -> Vec<char> {
    s.chars().collect()
}

fn err(kind: ParseErrorKind, line: usize, column: usize) -> ParseError {
    ParseError { kind, position: ParseErrorPosition { line, column } }
}

fn num(neg: bool, digits: &[u8], exp: i64) -> Num {
    Num::new(neg, digits.to_vec(), exp).expect("canonical number")
}

#[test]
fn empty_input_is_premature_eof() {
    assert_eq!(parse(""), Err(err(ParseErrorKind::PrematureEof, 1, 1)));
}

#[test]
fn truncated_literal_is_premature_eof() {
    assert_eq!(parse("nul"), Err(err(ParseErrorKind::PrematureEof, 1, 4)));
}

#[test]
fn wrong_literal_char_is_unexpected() {
    assert_eq!(parse("nulx"), Err(err(ParseErrorKind::UnexpectedChar, 1, 4)));
}

#[test]
fn huge_number_is_too_big_at_its_start() {
    assert_eq!(parse("1E400"), Err(err(ParseErrorKind::TooBigNumber, 1, 1)));
}

#[test]
fn mismatched_surrogate_pair_is_rejected_at_first_escape() {
    assert_eq!(
        parse("\"foo\\uD800\\uD7FFbar\""),
        Err(err(ParseErrorKind::InvalidUtf16SurrogatePair, 1, 5))
    );
}

#[test]
fn scalars_parse() {
    assert_eq!(parse("null"), Ok(Value::Null));
    assert_eq!(parse("true"), Ok(Value::Boolean(true)));
    assert_eq!(parse("false"), Ok(Value::Boolean(false)));
    assert_eq!(parse("0"), Ok(Value::Number(Num::zero())));
    assert_eq!(parse("12.34"), Ok(Value::Number(num(false, &[1, 2, 3, 4], 1))));
    assert_eq!(parse("-5.6e-77"), Ok(Value::Number(num(true, &[5, 6], -77))));
}

#[test]
fn minus_without_digits_is_unexpected() {
    assert_eq!(parse("-e"), Err(err(ParseErrorKind::UnexpectedChar, 1, 2)));
    assert_eq!(parse("-"), Err(err(ParseErrorKind::PrematureEof, 1, 2)));
}

#[test]
fn dot_without_digits_is_unexpected() {
    assert_eq!(parse("1.e2"), Err(err(ParseErrorKind::UnexpectedChar, 1, 3)));
    assert_eq!(parse("[1.0e]"), Err(err(ParseErrorKind::UnexpectedChar, 1, 6)));
}

#[test]
fn bad_hex_digit_in_escape() {
    assert_eq!(
        parse("\"foo\\u123xbar\""),
        Err(err(ParseErrorKind::UnexpectedChar, 1, 10))
    );
}

#[test]
fn high_surrogate_without_continuation() {
    assert_eq!(
        parse("\"foo\\uD800bar\""),
        Err(err(ParseErrorKind::UnexpectedChar, 1, 11))
    );
}

#[test]
fn unknown_escape_letter() {
    assert_eq!(parse("\"foo\\xbar\""), Err(err(ParseErrorKind::UnexpectedChar, 1, 6)));
}

#[test]
fn raw_newline_in_string_is_rejected() {
    assert_eq!(parse("\"foo\nbar\""), Err(err(ParseErrorKind::UnexpectedChar, 1, 5)));
}

#[test]
fn bad_separator_in_array() {
    assert_eq!(parse("[1;2;3]"), Err(err(ParseErrorKind::UnexpectedChar, 1, 3)));
}

#[test]
fn trailing_comma_in_array_is_rejected() {
    assert_eq!(
        parse("[\n    1,\n    2,\n]"),
        Err(err(ParseErrorKind::UnexpectedChar, 4, 1))
    );
}

#[test]
fn unterminated_array_is_premature_eof() {
    assert_eq!(
        parse("[\n    1,\n    2,\n"),
        Err(err(ParseErrorKind::PrematureEof, 4, 1))
    );
}

#[test]
fn bare_object_key_is_rejected() {
    assert_eq!(parse("{a:1,b:2,c:3}"), Err(err(ParseErrorKind::UnexpectedChar, 1, 2)));
}

#[test]
fn equals_instead_of_colon_is_rejected() {
    assert_eq!(
        parse("{\"a\"=1,\"b\"=2,\"c\"=3}"),
        Err(err(ParseErrorKind::UnexpectedChar, 1, 5))
    );
}

#[test]
fn semicolon_instead_of_comma_in_object() {
    assert_eq!(
        parse("{\"a\":1;\"b\":2;\"c\":3}"),
        Err(err(ParseErrorKind::UnexpectedChar, 1, 7))
    );
}

#[test]
fn trailing_comma_in_object_is_rejected() {
    assert_eq!(
        parse("{\n    \"a\":1,\n    \"b\":2,\n}"),
        Err(err(ParseErrorKind::UnexpectedChar, 4, 1))
    );
}

#[test]
fn unterminated_object_is_premature_eof() {
    assert_eq!(
        parse("{\n    \"a\":1,\n    \"b\":2,\n"),
        Err(err(ParseErrorKind::PrematureEof, 4, 1))
    );
}

#[test]
fn parentheses_are_not_json() {
    assert_eq!(parse("(1,2,3)"), Err(err(ParseErrorKind::UnexpectedChar, 1, 1)));
}

#[test]
fn trailing_garbage_after_value() {
    assert_eq!(parse("[1,2,3]."), Err(err(ParseErrorKind::UnexpectedChar, 1, 8)));
}

#[test]
fn column_counts_scalar_values_not_bytes() {
    assert_eq!(parse("\"\u{e9}\"x"), Err(err(ParseErrorKind::UnexpectedChar, 1, 4)));
}

#[test]
fn whitespace_around_value_is_ignored() {
    assert_eq!(parse(" \t\r\n null \t\r\n "), Ok(Value::Null));
    assert_eq!(parse("  [ 1 , 2 ]  "), parse("[1,2]"));
}

#[test]
fn escapes_decode_to_their_characters() {
    let parsed = parse("\"Foo:\\u000a- bar\\/caf\\u00E9 \\u2665'\\uD83E\\uDDE1\"").unwrap();
    assert_eq!(parsed, Value::String(chars("Foo:\n- bar/caf\u{e9} \u{2665}'\u{1F9E1}")));
    let direct = parse("\"Foo:\n- bar/café ♥'🧡\"");
    assert!(direct.is_err());
}

#[test]
fn short_escapes_all_decode() {
    let parsed = parse("\"\\\"\\\\\\/\\b\\f\\n\\r\\t\"").unwrap();
    assert_eq!(parsed, Value::String(chars("\"\\/\u{8}\u{c}\n\r\t")));
}

#[test]
fn nested_structures_parse() {
    let v = parse("[[],{},[{\"a\":[]}]]").unwrap();
    match v {
        Value::Array(items) => {
            assert_eq!(items.len(), 3);
            assert_eq!(items[0], Value::Array(Vec::new()));
            assert_eq!(items[1], Value::Object(Vec::new()));
        }
        other => panic!("expected array, got {:?}", other),
    }
}

#[test]
fn duplicate_keys_last_wins() {
    let v = parse("{\"a\":1,\"a\":2}").unwrap();
    let two = Value::Number(num(false, &[2], 0));
    assert_eq!(v, Value::Object(vec![(chars("a"), two)]));
}

#[test]
fn object_keys_are_stored_sorted() {
    let v = parse("{\"b\":2,\"a\":1}").unwrap();
    match &v {
        Value::Object(members) => {
            assert_eq!(members.len(), 2);
            assert_eq!(members[0].0, chars("a"));
            assert_eq!(members[1].0, chars("b"));
        }
        other => panic!("expected object, got {:?}", other),
    }
}

#[test]
fn number_exponent_saturation_keeps_roundtrip() {
    let v = parse("1e-1000000000000000000").unwrap();
    let text = rustic_json::stringify::stringify(&v, false);
    assert_eq!(text, "1e-1000000000000000000");
    assert_eq!(parse(&text).unwrap(), v);
}

#[test]
fn overflow_threshold_is_exact() {
    assert_eq!(
        parse("1.7976931348623159e308"),
        Err(err(ParseErrorKind::TooBigNumber, 1, 1))
    );
    assert_eq!(parse("1e309"), Err(err(ParseErrorKind::TooBigNumber, 1, 1)));
    assert!(parse("1.7976931348623157e308").is_ok());
    assert!(parse("1e308").is_ok());
    assert!(parse("-1.7976931348623159e308").is_err());
}

#[test]
fn tiny_numbers_do_not_error() {
    assert!(parse("1e-400").is_ok());
    assert!(parse("0.0000000001").is_ok());
}

#[test]
fn error_messages_render() {
    let e = parse("").unwrap_err();
    assert_eq!(e.message(), "premature end of data at line 1 column 1");
    let e = parse("nulx").unwrap_err();
    assert_eq!(e.message(), "unexpected character at line 1 column 4");
    let e = parse("1E400").unwrap_err();
    assert_eq!(e.message(), "too big number at line 1 column 1");
    let e = parse("\"foo\\uD800\\uD7FFbar\"").unwrap_err();
    assert_eq!(e.message(), "invalid UTF-16 surrogate pair at line 1 column 5");
}
