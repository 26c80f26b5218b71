use clove_core::json::{parse, Value, MAX_DEPTH};

fn text(s: &str) -> Value {
    Value::string(s)
}

#[test]
fn scalars() {
    assert_eq!(Value::Null.encode(), "null");
    assert_eq!(Value::Bool(true).encode(), "true");
    assert_eq!(Value::Int(-42).encode(), "-42");
    assert_eq!(Value::UInt(42).encode(), "42");
    assert_eq!(Value::Str("hi".to_owned()).encode(), "\"hi\"");
}

#[test]
fn strings_are_escaped() {
    assert_eq!(text("a\"b\\c\n\t\u{01}").encode(), "\"a\\\"b\\\\c\\n\\t\\u0001\"");
    // Non-ASCII passes through as UTF-8.
    assert_eq!(text("café").encode(), "\"café\"");
}

#[test]
fn nested_and_ordered() {
    let v = Value::Object(vec![
        ("name".to_owned(), text("demo")),
        ("done".to_owned(), Value::Bool(false)),
        ("peers".to_owned(), Value::Array(vec![Value::UInt(1), Value::UInt(2)])),
    ]);
    // Field order follows insertion, not sorting.
    assert_eq!(v.encode(), r#"{"name":"demo","done":false,"peers":[1,2]}"#);
}

#[test]
fn empty_containers() {
    assert_eq!(Value::Array(vec![]).encode(), "[]");
    assert_eq!(Value::Object(vec![]).encode(), "{}");
}

#[test]
fn parses_scalars_and_numbers() {
    assert_eq!(parse("null").unwrap(), Value::Null);
    assert_eq!(parse(" true ").unwrap(), Value::Bool(true));
    assert_eq!(parse("-42").unwrap(), Value::Int(-42));
    // Positive value beyond i64 becomes UInt.
    assert_eq!(parse("18446744073709551615").unwrap(), Value::UInt(u64::MAX));
    // A fraction or an exponent makes it a float, kept as it was written.
    let v = parse("1.5e3").unwrap();
    assert_eq!(v, Value::Float("1.5e3".to_owned()));
    match v {
        Value::Float(literal) => assert_eq!(literal.parse::<f64>().unwrap(), 1500.0),
        other => panic!("not a float: {other:?}"),
    }
    assert_eq!(parse("\"hi\"").unwrap(), text("hi"));
}

#[test]
fn round_trips_a_nested_object() {
    let original = Value::Object(vec![
        ("name".to_owned(), text("dé\"mo")),
        ("done".to_owned(), Value::Bool(false)),
        (
            "peers".to_owned(),
            // Small positive ints parse back as Int (JSON has no unsigned
            // distinction), so use Int here for an exact round-trip.
            Value::Array(vec![Value::Int(1), Value::Null]),
        ),
    ]);
    let reparsed = parse(&original.encode()).unwrap();
    assert_eq!(reparsed, original);
}

#[test]
fn decodes_string_escapes_and_surrogates() {
    assert_eq!(parse(r#""a\nb\t\"c""#).unwrap(), text("a\nb\t\"c"));
    assert_eq!(parse(r#""A""#).unwrap(), text("A"));
    assert_eq!(parse("\"\\u0041\"").unwrap(), text("A"));
    // Surrogate pair for U+1F600.
    assert_eq!(parse("\"\\uD83D\\uDE00\"").unwrap(), text("😀"));
    assert_eq!(parse(r#""😀""#).unwrap(), text("😀"));
}

#[test]
fn accessors() {
    let v = parse(r#"{"a":"x","n":[1,2]}"#).unwrap();
    assert_eq!(v.get("a").and_then(Value::as_str), Some("x"));
    assert_eq!(v.get("n").and_then(Value::as_array).map(|a| a.len()), Some(2));
    assert!(v.get("missing").is_none());
}

#[test]
fn rejects_hostile_input() {
    for bad in [
        "",
        "{",
        "[1,]",
        "{\"k\":}",
        "\"unterminated",
        "\"\\x\"",
        "nul",
        "1 2",
        "\"\\uD83D\"", // lone high surrogate
        "-",
    ] {
        assert!(parse(bad).is_err(), "should reject {bad:?}");
    }
    // Nesting past the depth cap is refused, not a stack overflow.
    let deep = "[".repeat(MAX_DEPTH + 5);
    assert!(parse(&deep).is_err());
}

#[test]
fn numbers_are_read_as_what_they_fit() {
    assert_eq!(parse("7").unwrap().as_u64(), Some(7));
    assert_eq!(parse("18446744073709551615").unwrap().as_u64(), Some(u64::MAX));
    assert_eq!(parse("-7").unwrap().as_u64(), None);
    assert_eq!(parse("1.5").unwrap().as_u64(), None);
    assert_eq!(parse("true").unwrap().as_bool(), Some(true));
    let v = parse(r#"{"k":1}"#).unwrap();
    assert_eq!(v.as_object().unwrap().len(), 1);
    assert_eq!(v.to_line(), "{\"k\":1}");
    assert_eq!(text("bare").to_line(), "bare");
    assert_eq!(Value::Null.to_line(), "-");
    assert_eq!(parse("-9223372036854775808").unwrap(), Value::Int(i64::MIN));
}

#[test]
fn errors_say_where() {
    let e = parse("[1,]").unwrap_err();
    assert!(e.message().contains(&e.at.to_string()), "{}", e.message());
}

#[test]
fn numbers_beyond_f64_are_refused() {
    // `1e400` is infinity to double precision, which JSON has no text for: a
    // value that changes meaning on re-serialisation is an error here.
    assert!(parse("1e400").is_err());
    assert!(parse("-1e400").is_err());
    // The same literal without an exponent: too wide for u64 and for f64.
    assert!(parse(&format!("1{}", "0".repeat(400))).is_err());
    // What still fits is a float, and survives the round trip.
    assert_eq!(parse("1e308").unwrap(), Value::Float("1e308".to_owned()));
    let wide = parse("123456789012345678901234567890").unwrap();
    assert_eq!(parse(&wide.encode()).unwrap(), wide);
}

/// The range is exactly that of double precision: the library agrees with the
/// standard parser on both sides of the edge.
#[test]
fn the_range_ends_where_infinity_begins() {
    let edge = "17976931348623158079372897140530341507993413271003782693617377898044496829276475\
                0946649017977587207096330286416692887910946555547851940402630657488671505820681908\
                902000708383676273854845817711531764475730270069855571366959622842914819860834936\
                475292719074168444365510704342711559699508093042880177904174497792";
    let below = format!("{}1", &edge[..edge.len() - 1]);
    let shifted = format!("{}.{}e300", &edge[..9], &edge[9..]);
    let tiny_shift = format!("0.000{edge}e312");
    let over = format!("{edge}.0001");
    for (literal, finite) in [
        (edge, false),
        (below.as_str(), true),
        (over.as_str(), false),
        (shifted.as_str(), false),
        (tiny_shift.as_str(), false),
        ("1.7976931348623157e308", true),
        ("1.7976931348623159e308", false),
        ("0.00000000000000000001e328", true),
        ("0.00000000000000000001e329", false),
        ("0e999999999999999999999999999999", true),
        ("1e-999999999999999999999999999999", true),
        ("1e999999999999999999999999999999", false),
        ("5E-324", true),
        ("0.0", true),
    ] {
        assert_eq!(literal.parse::<f64>().unwrap().is_finite(), finite, "{literal}");
        assert_eq!(parse(literal).is_ok(), finite, "{literal}");
    }
    assert_eq!(parse("[1e400]").unwrap_err().what, "number out of range");
}

#[test]
fn a_json_clone_is_the_same_value() {
    let v = parse(r#"{"a":[1,-2,2.5,null,true],"b":{"c":"x"}}"#).unwrap();
    assert_eq!(v.clone(), v);
    assert_eq!(v.clone().encode(), v.encode());
}
