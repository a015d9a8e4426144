use json::cursor::Cursor;
use json::parse;
use json::parse::{parse_four_hex, parse_string};
use json::unicode::{compose_surrogates, is_lead_surrogate, is_trail_surrogate, REPLACEMENT};
use json::Value;

fn text(s: &str) -> Option<Value> {
    Some(Value::String(String::from(s)))
}

fn chars(s: &str) -> Vec<char> {
    s.chars().collect()
}

#[test]
fn lead_surrogate_range() {
    assert!(!is_lead_surrogate(0xD7FF));
    assert!(is_lead_surrogate(0xD800));
    assert!(is_lead_surrogate(0xDBFF));
    assert!(!is_lead_surrogate(0xDC00));
    assert!(!is_lead_surrogate(0x0041));
}

#[test]
fn trail_surrogate_range() {
    assert!(!is_trail_surrogate(0xDBFF));
    assert!(is_trail_surrogate(0xDC00));
    assert!(is_trail_surrogate(0xDFFF));
    assert!(!is_trail_surrogate(0xE000));
    assert!(!is_trail_surrogate(0xFFFF));
}

#[test]
fn compose_surrogates_formula() {
    assert_eq!(compose_surrogates(0xD83D, 0xDE00), '\u{1F600}');
    assert_eq!(compose_surrogates(0xD800, 0xDC00), '\u{10000}');
    assert_eq!(compose_surrogates(0xDBFF, 0xDFFF), '\u{10FFFF}');
    assert_eq!(compose_surrogates(0xD801, 0xDC37), '\u{10437}');
}

#[test]
fn surrogate_pair_decodes_to_one_scalar() {
    assert_eq!(parse("\"\\uD83D\\uDE00\""), text("\u{1F600}"));
    assert_eq!(parse("\"a\\ud83d\\ude00b\""), text("a\u{1F600}b"));
}

#[test]
fn isolated_lead_surrogate_is_replaced() {
    assert_eq!(parse("\"\\uD800\""), text("\u{FFFD}"));
    assert_eq!(parse("\"\\uD800x\""), text("\u{FFFD}x"));
    assert_eq!(parse("\"\\uD800\\n\""), text("\u{FFFD}\n"));
    assert_eq!(parse("\"\\uD800\\u0041\""), text("\u{FFFD}A"));
}

#[test]
fn isolated_trail_surrogate_is_replaced() {
    assert_eq!(parse("\"\\uDC00\""), text("\u{FFFD}"));
    assert_eq!(parse("\"x\\uDC00y\""), text("x\u{FFFD}y"));
}

#[test]
fn lead_followed_by_lead_then_trail() {
    assert_eq!(parse("\"\\uD800\\uD83D\\uDE00\""), text("\u{FFFD}\u{1F600}"));
    assert_eq!(parse("\"\\uD83D\\uDE00\\uDE00\""), text("\u{1F600}\u{FFFD}"));
    assert_eq!(parse("\"\\uD800\\uD800\""), text("\u{FFFD}\u{FFFD}"));
}

#[test]
fn replacement_constant() {
    assert_eq!(REPLACEMENT, char::REPLACEMENT_CHARACTER);
}

#[test]
fn simple_escapes() {
    assert_eq!(
        parse("\"\\\"\\\\\\/\\b\\f\\n\\r\\t\""),
        text("\"\\/\u{8}\u{c}\n\r\t")
    );
    assert_eq!(parse("\"\\u0041\\u00e9\\u20AC\""), text("A\u{e9}\u{20ac}"));
    assert_eq!(parse("\"\""), text(""));
    assert_eq!(parse("\"\u{e9}\u{1F600} \""), text("\u{e9}\u{1F600} "));
}

#[test]
fn unknown_escape_is_rejected() {
    assert_eq!(parse("\"\\a\""), None);
    assert_eq!(parse("\"\\U0041\""), None);
    assert_eq!(parse("\"\\'\""), None);
    assert_eq!(parse("\"\\"), None);
}

#[test]
fn raw_control_characters_are_rejected() {
    assert_eq!(parse("\"a\nb\""), None);
    assert_eq!(parse("\"\u{0}\""), None);
    assert_eq!(parse("\"\t\""), None);
    assert_eq!(parse("\"\u{19}\""), None);
    assert_eq!(parse("\"\u{1a}\""), text("\u{1a}"));
    assert_eq!(parse("\"\u{7f}\""), text("\u{7f}"));
}

#[test]
fn incomplete_or_bad_unicode_escape_is_rejected() {
    assert_eq!(parse("\"\\u\""), None);
    assert_eq!(parse("\"\\u1\""), None);
    assert_eq!(parse("\"\\u12\""), None);
    assert_eq!(parse("\"\\u123\""), None);
    assert_eq!(parse("\"\\u123"), None);
    assert_eq!(parse("\"\\u12G4\""), None);
    assert_eq!(parse("\"\\uZZZZ\""), None);
    assert_eq!(parse("\"\\u+123\""), None);
    assert_eq!(parse("\"\\u-123\""), None);
    assert_eq!(parse("\"\\u 123\""), None);
}

#[test]
fn missing_closing_quote_is_rejected() {
    assert_eq!(parse("\"abc"), None);
    assert_eq!(parse("\""), None);
    assert_eq!(parse("\"abc\\\""), None);
    assert_eq!(parse("\"\\uD800"), None);
}

#[test]
fn four_hex_reads_a_code_unit() {
    let t = chars("1aF9z");
    let mut c = Cursor::new(&t);
    assert_eq!(parse_four_hex(&mut c), Some(0x1AF9));
    assert_eq!(c.offset(), 4);
    let t = chars("FFFF");
    let mut c = Cursor::new(&t);
    assert_eq!(parse_four_hex(&mut c), Some(0xFFFF));
    let t = chars("0000");
    let mut c = Cursor::new(&t);
    assert_eq!(parse_four_hex(&mut c), Some(0));
    let t = chars("12g4");
    let mut c = Cursor::new(&t);
    assert_eq!(parse_four_hex(&mut c), None);
    let t = chars("123");
    let mut c = Cursor::new(&t);
    assert_eq!(parse_four_hex(&mut c), None);
}

#[test]
fn string_stops_behind_the_closing_quote() {
    let t = chars("\"ab\\u0063\" rest");
    let mut c = Cursor::new(&t);
    assert_eq!(parse_string(&mut c), Some(String::from("abc")));
    assert_eq!(c.offset(), 10);
    let t = chars("abc\"");
    let mut c = Cursor::new(&t);
    assert_eq!(parse_string(&mut c), None);
}

#[test]
fn render_escapes() {
    let v = Value::String(String::from("\u{8}\u{c}\n\r\t\"\\"));
    assert_eq!(v.to_string(), "\"\\b\\f\\n\\r\\t\\\"\\\\\"");
}

#[test]
fn render_control_characters_as_four_hex_digits() {
    assert_eq!(Value::String(String::from("\u{1}")).to_string(), "\"\\u0001\"");
    assert_eq!(Value::String(String::from("\u{0}")).to_string(), "\"\\u0000\"");
    assert_eq!(Value::String(String::from("\u{b}")).to_string(), "\"\\u000b\"");
    assert_eq!(Value::String(String::from("\u{19}")).to_string(), "\"\\u0019\"");
    assert_eq!(Value::String(String::from("\u{1a}")).to_string(), "\"\u{1a}\"");
    assert_eq!(Value::String(String::from("\u{1f}")).to_string(), "\"\u{1f}\"");
}

#[test]
fn render_leaves_other_characters_alone() {
    let v = Value::String(String::from("/ \u{7f}\u{e9}\u{FFFD}\u{1F600}'"));
    assert_eq!(v.to_string(), "\"/ \u{7f}\u{e9}\u{FFFD}\u{1F600}'\"");
}

#[test]
fn append_str_appends_a_literal() {
    let mut out = String::from("x=");
    Value::append_str("a\"b", &mut out);
    assert_eq!(out, "x=\"a\\\"b\"");
}

#[test]
fn every_string_is_read_back() {
    let mut all = String::new();
    for code in 0u32..0x300 {
        all.push(char::from_u32(code).unwrap());
    }
    all.push('\u{FFFD}');
    all.push('\u{1F600}');
    let v = Value::String(all);
    assert_eq!(parse(&v.to_string()), Some(v));
}
