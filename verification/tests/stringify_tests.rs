use rustic_json::{parse, Num, Value};

fn chars(s: &str) -> Vec<char> {
    s.chars().collect()
}

fn num(neg: bool, digits: &[u8], exp: i64) -> Num {
    Num::new(neg, digits.to_vec(), exp).expect("canonical number")
}

fn roundtrip(text: &str) -> String {
    rustic_json::stringify::stringify(&parse(text).expect("valid input"), false)
}

#[test]
fn scalars_render() {
    assert_eq!(rustic_json::stringify::stringify(&Value::Null, false), "null");
    assert_eq!(rustic_json::stringify::stringify(&Value::Boolean(true), false), "true");
    assert_eq!(rustic_json::stringify::stringify(&Value::Boolean(false), false), "false");
    assert_eq!(rustic_json::stringify::stringify(&Value::Number(Num::zero()), false), "0");
}

#[test]
fn compact_array_scenario() {
    assert_eq!(
        roundtrip("[null,true,false,0,12.34,-5.6e-77]"),
        "[null,true,false,0,12.34,-5.6e-77]"
    );
}

#[test]
fn sorted_keys_scenario() {
    assert_eq!(roundtrip("{\"b\":2,\"a\":1}"), "{\"a\":1,\"b\":2}");
}

#[test]
fn numbers_render_like_shortest_decimals() {
    assert_eq!(roundtrip("0"), "0");
    assert_eq!(roundtrip("-0"), "0");
    assert_eq!(roundtrip("10.0"), "10");
    assert_eq!(roundtrip("12.340"), "12.34");
    assert_eq!(roundtrip("1.5e3"), "1500");
    assert_eq!(roundtrip("1e15"), "1000000000000000");
    assert_eq!(roundtrip("1e16"), "1e16");
    assert_eq!(roundtrip("0.0001"), "0.0001");
    assert_eq!(roundtrip("0.00001"), "1e-5");
    assert_eq!(roundtrip("-56E-78"), "-5.6e-77");
    assert_eq!(roundtrip("123.456e2"), "12345.6");
    assert_eq!(roundtrip("0.000123"), "0.000123");
}

#[test]
fn strings_escape_on_output() {
    let v = Value::String(chars("<\"> <\\> <\u{8}> <\u{c}> <\n> <\r> <\t> </> <\u{1}>"));
    assert_eq!(
        rustic_json::stringify::stringify(&v, false),
        "\"<\\\"> <\\\\> <\\b> <\\f> <\\n> <\\r> <\\t> </> <\\u0001>\""
    );
}

#[test]
fn non_ascii_is_not_escaped() {
    assert_eq!(roundtrip("\"caf\\u00E9 \\u2665 \\uD83E\\uDDE1\""), "\"café ♥ 🧡\"");
}

#[test]
fn solidus_is_accepted_on_input_only() {
    assert_eq!(roundtrip("\"a\\/b\""), "\"a/b\"");
}

#[test]
fn empty_containers_stay_compact_even_pretty() {
    assert_eq!(rustic_json::stringify::stringify(&Value::Array(Vec::new()), true), "[]");
    assert_eq!(rustic_json::stringify::stringify(&Value::Object(Vec::new()), true), "{}");
}

#[test]
fn pretty_mode_indents_four_spaces() {
    let v = parse("[null,[1,{\"a\":2}]]").unwrap();
    assert_eq!(
        rustic_json::stringify::stringify(&v, true),
        "[\n    null,\n    [\n        1,\n        {\n            \"a\": 2\n        }\n    ]\n]"
    );
}

#[test]
fn pretty_and_compact_parse_back_to_the_same_tree() {
    let src = "{\"b\":[1,2,{\"x\":null}],\"a\":\"caf\u{e9}\\n\",\"c\":-12.5e-3}";
    let v = parse(src).unwrap();
    let compact = rustic_json::stringify::stringify(&v, false);
    let pretty = rustic_json::stringify::stringify(&v, true);
    assert_eq!(parse(&compact).unwrap(), v);
    assert_eq!(parse(&pretty).unwrap(), v);
}

#[test]
fn serialization_is_deterministic() {
    let v1 = parse("{\"b\":2,\"a\":1}").unwrap();
    let v2 = parse("{ \"a\" : 1 , \"b\" : 2 }").unwrap();
    assert_eq!(v1, v2);
    assert_eq!(rustic_json::stringify::stringify(&v1, false), rustic_json::stringify::stringify(&v2, false));
    assert_eq!(rustic_json::stringify::stringify(&v1, true), rustic_json::stringify::stringify(&v2, true));
}

#[test]
fn constructed_numbers_render() {
    assert_eq!(rustic_json::stringify::stringify(&Value::Number(num(false, &[1, 2, 3], 2)), false), "123");
    assert_eq!(rustic_json::stringify::stringify(&Value::Number(num(true, &[1, 2, 3], 2)), false), "-123");
    assert_eq!(rustic_json::stringify::stringify(&Value::Number(num(false, &[5], -4)), false), "0.0005");
    assert_eq!(rustic_json::stringify::stringify(&Value::Number(num(false, &[5], -5)), false), "5e-5");
    assert_eq!(rustic_json::stringify::stringify(&Value::Number(num(false, &[9, 9], 16)), false), "9.9e16");
    assert_eq!(rustic_json::stringify::stringify(&Value::Number(num(false, &[1], 308)), false), "1e308");
}

#[test]
fn num_constructor_enforces_canonical_form() {
    assert!(Num::new(false, vec![1, 2], 0).is_some());
    assert!(Num::new(false, vec![0, 1], 0).is_none());
    assert!(Num::new(false, vec![1, 0], 0).is_none());
    assert!(Num::new(false, vec![12], 0).is_none());
    assert!(Num::new(true, vec![], 0).is_none());
    assert!(Num::new(false, vec![], 1).is_none());
    assert!(Num::new(false, vec![1], 309).is_none());
    assert!(Num::new(false, vec![1], 308).is_some());
    assert!(Num::new(false, vec![1, 7, 9, 7, 6, 9, 3, 1, 3, 4, 8, 6, 2, 3, 1, 5, 9], 308).is_none());
}
