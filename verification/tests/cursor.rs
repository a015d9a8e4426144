use json::cursor::{is_digit, is_ws, next_if, peek, skip_while, Cursor};
use json::parse::{
    consume_object_entry, parse_array, parse_keyword, parse_object, parse_value,
};
use json::text::to_chars;
use json::Value;

fn chars(s: &str) -> Vec<char> {
    s.chars().collect()
}

#[test]
fn white_space_is_four_characters() {
    assert!(is_ws(' '));
    assert!(is_ws('\t'));
    assert!(is_ws('\n'));
    assert!(is_ws('\r'));
    assert!(!is_ws('\u{b}'));
    assert!(!is_ws('\u{c}'));
    assert!(!is_ws('\u{a0}'));
    assert!(!is_ws('a'));
}

#[test]
fn digits_are_ascii() {
    assert!(is_digit('0'));
    assert!(is_digit('9'));
    assert!(!is_digit('/'));
    assert!(!is_digit(':'));
    assert!(!is_digit('\u{0661}'));
}

#[test]
fn to_chars_keeps_every_character() {
    assert_eq!(to_chars("a\u{e9}\u{1F600}"), vec!['a', '\u{e9}', '\u{1F600}']);
    assert_eq!(to_chars(""), Vec::<char>::new());
}

#[test]
fn peek_does_not_consume() {
    let t = chars("ab");
    let mut c = Cursor::new(&t);
    assert_eq!(peek(&c), Some('a'));
    assert_eq!(peek(&c), Some('a'));
    assert_eq!(c.offset(), 0);
    assert_eq!(c.next(), Some('a'));
    assert_eq!(peek(&c), Some('b'));
    assert_eq!(c.next(), Some('b'));
    assert_eq!(peek(&c), None);
    assert_eq!(c.next(), None);
    assert_eq!(c.offset(), 2);
}

#[test]
fn next_if_consumes_on_match_only() {
    let t = chars("1a");
    let mut c = Cursor::new(&t);
    assert_eq!(next_if(&mut c, is_ws), None);
    assert_eq!(c.offset(), 0);
    assert_eq!(next_if(&mut c, is_digit), Some('1'));
    assert_eq!(c.offset(), 1);
    assert_eq!(next_if(&mut c, |ch| ch == 'a'), Some('a'));
    assert_eq!(next_if(&mut c, |_| true), None);
    assert_eq!(c.offset(), 2);
}

#[test]
fn skip_while_stops_at_first_mismatch() {
    let t = chars(" \t\r\n x ");
    let mut c = Cursor::new(&t);
    skip_while(&mut c, is_ws);
    assert_eq!(c.offset(), 5);
    skip_while(&mut c, is_ws);
    assert_eq!(c.offset(), 5);
    skip_while(&mut c, |_| true);
    assert_eq!(c.offset(), 7);
}

#[test]
fn copy_is_a_snapshot() {
    let t = chars("abc");
    let mut c = Cursor::new(&t);
    c.next();
    let saved = c;
    c.next();
    c.next();
    assert_eq!(c.offset(), 3);
    assert_eq!(saved.offset(), 1);
    assert_eq!(peek(&saved), Some('b'));
}

#[test]
fn keyword_consumes_all_or_nothing() {
    let t = chars("nullx");
    let mut c = Cursor::new(&t);
    assert_eq!(parse_keyword(&mut c, "null", Value::Null), Some(Value::Null));
    assert_eq!(c.offset(), 4);

    let t = chars("nulx");
    let mut c = Cursor::new(&t);
    assert_eq!(parse_keyword(&mut c, "null", Value::Null), None);
    assert_eq!(c.offset(), 0);

    let t = chars("tru");
    let mut c = Cursor::new(&t);
    assert_eq!(parse_keyword(&mut c, "true", Value::Bool(true)), None);
    assert_eq!(c.offset(), 0);
}

#[test]
fn value_stops_behind_itself() {
    let t = chars("[1, 2]  ,");
    let mut c = Cursor::new(&t);
    let want = Value::Array(vec![
        Value::Number(String::from("1")),
        Value::Number(String::from("2")),
    ]);
    assert_eq!(parse_value(&mut c), Some(want));
    assert_eq!(c.offset(), 6);

    let t = chars(" 1");
    let mut c = Cursor::new(&t);
    assert_eq!(parse_value(&mut c), None);

    let t = chars("x");
    let mut c = Cursor::new(&t);
    assert_eq!(parse_value(&mut c), None);
}

#[test]
fn array_needs_its_bracket() {
    let t = chars("1]");
    let mut c = Cursor::new(&t);
    assert_eq!(parse_array(&mut c), None);
    let t = chars("[ null ,\n[ ] ]x");
    let mut c = Cursor::new(&t);
    assert_eq!(parse_array(&mut c), Some(vec![Value::Null, Value::Array(vec![])]));
    assert_eq!(c.offset(), 14);
}

#[test]
fn object_consumes_nothing_on_failure() {
    let t = chars("{\"a\":1,");
    let mut c = Cursor::new(&t);
    assert_eq!(parse_object(&mut c), None);
    assert_eq!(c.offset(), 0);

    let t = chars("{ \"a\" : true }!");
    let mut c = Cursor::new(&t);
    assert_eq!(
        parse_object(&mut c),
        Some(vec![(String::from("a"), Value::Bool(true))])
    );
    assert_eq!(c.offset(), 14);
}

#[test]
fn entry_replaces_the_value_of_a_known_key() {
    let mut out = vec![
        (String::from("a"), Value::Null),
        (String::from("b"), Value::Null),
    ];
    let t = chars("\"a\" : [ ]");
    let mut c = Cursor::new(&t);
    assert_eq!(consume_object_entry(&mut c, &mut out), Some(()));
    assert_eq!(
        out,
        vec![
            (String::from("a"), Value::Array(vec![])),
            (String::from("b"), Value::Null),
        ]
    );
    let t = chars("\"c\":false");
    let mut c = Cursor::new(&t);
    assert_eq!(consume_object_entry(&mut c, &mut out), Some(()));
    assert_eq!(out.len(), 3);
    assert_eq!(out[2], (String::from("c"), Value::Bool(false)));

    let t = chars("\"d\" false");
    let mut c = Cursor::new(&t);
    assert_eq!(consume_object_entry(&mut c, &mut out), None);
    assert_eq!(out.len(), 3);
}

#[test]
fn append_extends_the_text() {
    let mut out = String::from(">");
    Value::Array(vec![Value::Null, Value::Bool(false)]).append(&mut out);
    Value::Object(vec![]).append(&mut out);
    assert_eq!(out, ">[null,false]{}");
}

#[test]
fn writer_output_is_always_read_back() {
    let odd = Value::Object(vec![
        (String::from("k"), Value::Number(String::from("x"))),
        (String::from("k"), Value::Array(vec![Value::Number(String::from("1e"))])),
        (String::from("j"), Value::Null),
    ]);
    assert_eq!(odd.to_string(), "{\"k\":null,\"k\":[null],\"j\":null}");
    let want = Value::Object(vec![
        (String::from("k"), Value::Array(vec![Value::Null])),
        (String::from("j"), Value::Null),
    ]);
    assert_eq!(json::parse(&odd.to_string()), Some(want));
}

#[test]
fn deep_nesting() {
    let depth = 200;
    let mut text = String::new();
    for _ in 0..depth {
        text.push('[');
    }
    for _ in 0..depth {
        text.push(']');
    }
    let v = json::parse(&text).unwrap();
    assert_eq!(v.to_string(), text);
}
