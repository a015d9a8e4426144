use json::parse;
use json::Value;

fn num(lit: &str) -> Value {
    Value::Number(String::from(lit))
}

fn text(s: &str) -> Value {
    Value::String(String::from(s))
}

fn member(key: &str, v: Value) -> (String, Value) {
    (String::from(key), v)
}

#[test]
fn empty_object() {
    assert_eq!(parse("{}"), Some(Value::Object(vec![])));
    assert_eq!(parse(" { \t\r\n } "), Some(Value::Object(vec![])));
}

#[test]
fn empty_array() {
    assert_eq!(parse("[]"), Some(Value::Array(vec![])));
    assert_eq!(parse("[ ]"), Some(Value::Array(vec![])));
}

#[test]
fn keywords() {
    assert_eq!(parse("null"), Some(Value::Null));
    assert_eq!(parse("true"), Some(Value::Bool(true)));
    assert_eq!(parse("false"), Some(Value::Bool(false)));
    assert_eq!(parse("nul"), None);
    assert_eq!(parse("nulll"), None);
    assert_eq!(parse("True"), None);
    assert_eq!(parse("fals"), None);
}

#[test]
fn trailing_content_is_rejected() {
    assert_eq!(parse("1 2"), None);
    assert_eq!(parse("1 "), Some(num("1")));
    assert_eq!(parse(" \n1\t\r "), Some(num("1")));
    assert_eq!(parse("[] x"), None);
    assert_eq!(parse("{}{}"), None);
    assert_eq!(parse("null,"), None);
}

#[test]
fn blanks_are_four_characters_only() {
    assert_eq!(parse("\u{000B}1"), None);
    assert_eq!(parse("\u{00A0}1"), None);
    assert_eq!(parse("1\u{000C}"), None);
}

#[test]
fn empty_text_is_rejected() {
    assert_eq!(parse(""), None);
    assert_eq!(parse("   "), None);
}

#[test]
fn nested_document() {
    let got = parse(" { \"a\" : [ 1 , true , null ] , \"b\" : { \"c\" : \"d\" } } ");
    let want = Value::Object(vec![
        member("a", Value::Array(vec![num("1"), Value::Bool(true), Value::Null])),
        member("b", Value::Object(vec![member("c", text("d"))])),
    ]);
    assert_eq!(got, Some(want));
}

#[test]
fn duplicate_keys_last_wins() {
    assert_eq!(
        parse("{\"a\":1,\"a\":2}"),
        Some(Value::Object(vec![member("a", num("2"))]))
    );
    assert_eq!(
        parse("{\"a\":1,\"b\":3,\"a\":2}"),
        Some(Value::Object(vec![member("a", num("2")), member("b", num("3"))]))
    );
}

#[test]
fn malformed_containers() {
    assert_eq!(parse("{"), None);
    assert_eq!(parse("["), None);
    assert_eq!(parse("{\"a\":1"), None);
    assert_eq!(parse("[1,2"), None);
    assert_eq!(parse("[1,]"), None);
    assert_eq!(parse("[,1]"), None);
    assert_eq!(parse("{\"a\":1,}"), None);
    assert_eq!(parse("{a:1}"), None);
    assert_eq!(parse("{'a':1}"), None);
    assert_eq!(parse("{\"a\" 1}"), None);
    assert_eq!(parse("{\"a\":}"), None);
    assert_eq!(parse("[1 2]"), None);
    assert_eq!(parse("]"), None);
    assert_eq!(parse("'a'"), None);
}

#[test]
fn render_keywords_and_containers() {
    assert_eq!(Value::Null.to_string(), "null");
    assert_eq!(Value::Bool(true).to_string(), "true");
    assert_eq!(Value::Bool(false).to_string(), "false");
    assert_eq!(Value::Object(vec![]).to_string(), "{}");
    assert_eq!(Value::Array(vec![]).to_string(), "[]");
    let v = Value::Object(vec![
        member("a", Value::Array(vec![num("1"), Value::Bool(true), Value::Null])),
        member("b", Value::Object(vec![member("c", text("d"))])),
    ]);
    assert_eq!(v.to_string(), "{\"a\":[1,true,null],\"b\":{\"c\":\"d\"}}");
}

#[test]
fn render_then_parse_gives_the_value_back() {
    let v = Value::Object(vec![
        member("k\"1", Value::Array(vec![num("-1.5e10"), text("a\nb\u{1}\\"), Value::Null])),
        member("", Value::Object(vec![])),
        member("\u{1F600}", Value::Array(vec![Value::Array(vec![]), Value::Bool(false)])),
    ]);
    let rendered = v.to_string();
    assert_eq!(parse(&rendered), Some(v.clone()));
    assert_eq!(parse(&rendered).unwrap().to_string(), rendered);
}

#[test]
fn parse_then_render_then_parse() {
    let source = " { \"a\" : [ 1.50 , 2e3 , \"x\\u0041\\/\" ] , \"a\" : [ ] , \"b\" : -0 } ";
    let first = parse(source).unwrap();
    let rendered = first.to_string();
    assert_eq!(rendered, "{\"a\":[],\"b\":-0}");
    assert_eq!(parse(&rendered), Some(first));
}

#[test]
fn default_is_null() {
    assert_eq!(Value::default(), Value::Null);
}

#[test]
fn clone_is_deep_and_equal() {
    let v = Value::Array(vec![
        Value::Object(vec![member("a", text("b"))]),
        num("7"),
    ]);
    let w = v.clone();
    assert_eq!(v, w);
    drop(v);
    assert_eq!(w.to_string(), "[{\"a\":\"b\"},7]");
}
