use json::cursor::Cursor;
use json::parse;
use json::parse::parse_number;
use json::render::is_number;
use json::Value;

fn num(lit: &str) -> Option<Value> {
    Some(Value::Number(String::from(lit)))
}

fn chars(s: &str) -> Vec<char> {
    s.chars().collect()
}

fn as_double(v: Option<Value>) -> f64 {
    match v {
        Some(Value::Number(lit)) => lit.parse().unwrap(),
        _ => panic!("not a number"),
    }
}

fn from_double(f: f64) -> Value {
    let mut buf = ryu::Buffer::new();
    Value::Number(String::from(buf.format(f)))
}

#[test]
fn zero() {
    assert_eq!(parse("0"), num("0"));
    assert_eq!(as_double(parse("0")), 0.0);
}

#[test]
fn negative_zero_is_kept() {
    assert_eq!(parse("-0"), num("-0"));
    let z = as_double(parse("-0"));
    assert_eq!(z, 0.0);
    assert!(z.is_sign_negative());
    assert_eq!(parse("-0").unwrap().to_string(), "-0");
    assert_eq!(from_double(-0.0).to_string(), "-0.0");
    assert!(as_double(parse(&from_double(-0.0).to_string())).is_sign_negative());
}

#[test]
fn leading_zero_is_rejected() {
    assert_eq!(parse("01"), None);
    assert_eq!(parse("-01"), None);
    assert_eq!(parse("00"), None);
    assert_eq!(parse("[01]"), None);
}

#[test]
fn exponent_form() {
    assert_eq!(parse("1.5e10"), num("1.5e10"));
    assert_eq!(as_double(parse("1.5e10")), 1.5e10);
    let again = parse("1.5e10").unwrap().to_string();
    assert_eq!(as_double(parse(&again)), 1.5e10);
    assert_eq!(parse("1E+2"), num("1E+2"));
    assert_eq!(parse("1e-2"), num("1e-2"));
    assert_eq!(as_double(parse("-12.5E-1")), -1.25);
}

#[test]
fn incomplete_numbers_are_rejected() {
    assert_eq!(parse("-"), None);
    assert_eq!(parse("1."), None);
    assert_eq!(parse(".5"), None);
    assert_eq!(parse("1e"), None);
    assert_eq!(parse("1e+"), None);
    assert_eq!(parse("1.e5"), None);
    assert_eq!(parse("+1"), None);
    assert_eq!(parse("--1"), None);
    assert_eq!(parse("1.5.2"), None);
    assert_eq!(parse("1e5e5"), None);
    assert_eq!(parse("0x10"), None);
    assert_eq!(parse("NaN"), None);
    assert_eq!(parse("Infinity"), None);
}

#[test]
fn number_takes_only_what_is_complete() {
    let t = chars("12.e5");
    let mut c = Cursor::new(&t);
    assert_eq!(parse_number(&mut c), Some(String::from("12")));
    assert_eq!(c.offset(), 2);

    let t = chars("0123");
    let mut c = Cursor::new(&t);
    assert_eq!(parse_number(&mut c), Some(String::from("0")));
    assert_eq!(c.offset(), 1);

    let t = chars("-1.25e+3,");
    let mut c = Cursor::new(&t);
    assert_eq!(parse_number(&mut c), Some(String::from("-1.25e+3")));
    assert_eq!(c.offset(), 8);

    let t = chars("7e-x");
    let mut c = Cursor::new(&t);
    assert_eq!(parse_number(&mut c), Some(String::from("7")));
    assert_eq!(c.offset(), 1);

    let t = chars("3.14e");
    let mut c = Cursor::new(&t);
    assert_eq!(parse_number(&mut c), Some(String::from("3.14")));
    assert_eq!(c.offset(), 4);
}

#[test]
fn number_consumes_nothing_on_failure() {
    let t = chars("-x");
    let mut c = Cursor::new(&t);
    assert_eq!(parse_number(&mut c), None);
    assert_eq!(c.offset(), 0);
    let t = chars("");
    let mut c = Cursor::new(&t);
    assert_eq!(parse_number(&mut c), None);
    let t = chars("-");
    let mut c = Cursor::new(&t);
    assert_eq!(parse_number(&mut c), None);
    assert_eq!(c.offset(), 0);
}

#[test]
fn number_literals() {
    for lit in ["0", "-0", "7", "10", "-12.5", "0.001", "1e9", "1E-9", "2.50e+07"] {
        assert!(is_number(lit), "{}", lit);
    }
    for lit in ["", "-", "01", "1.", ".1", "1e", "+1", " 1", "1 ", "NaN", "inf", "-inf", "1,2"] {
        assert!(!is_number(lit), "{}", lit);
    }
}

#[test]
fn render_number_literal_as_it_is() {
    assert_eq!(Value::Number(String::from("1")).to_string(), "1");
    assert_eq!(Value::Number(String::from("1e-123")).to_string(), "1e-123");
    assert_eq!(Value::Number(String::from("-2.50")).to_string(), "-2.50");
}

#[test]
fn render_what_is_no_number_as_null() {
    assert_eq!(Value::Number(String::from("NaN")).to_string(), "null");
    assert_eq!(Value::Number(String::from("inf")).to_string(), "null");
    assert_eq!(Value::Number(String::from("")).to_string(), "null");
    assert_eq!(Value::Number(String::from("1,2")).to_string(), "null");
    let v = Value::Array(vec![Value::Number(String::from("-inf")), Value::Number(String::from("2"))]);
    assert_eq!(v.to_string(), "[null,2]");
    assert_eq!(
        parse(&v.to_string()),
        Some(Value::Array(vec![Value::Null, Value::Number(String::from("2"))]))
    );
}

#[test]
fn doubles_through_the_shortest_formatter() {
    assert_eq!(from_double(1.0).to_string(), "1.0");
    assert_eq!(from_double(1e-123).to_string(), "1e-123");
    assert_eq!(from_double(1.5e10).to_string(), "15000000000.0");
    assert_eq!(from_double(1.5e300).to_string(), "1.5e300");
    assert_eq!(from_double(f64::NAN).to_string(), "null");
    assert_eq!(from_double(f64::INFINITY).to_string(), "null");
    assert_eq!(from_double(f64::NEG_INFINITY).to_string(), "null");
}

#[test]
fn doubles_are_read_back() {
    let samples = [
        0.0,
        1.0,
        -1.0,
        0.1,
        1.5e10,
        1e-123,
        123456789.125,
        f64::MAX,
        f64::MIN_POSITIVE,
        5e-324,
        -2.2250738585072014e-308,
    ];
    for f in samples {
        let text = from_double(f).to_string();
        assert_eq!(as_double(parse(&text)), f, "{}", text);
    }
}
