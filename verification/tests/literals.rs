use jsonlike::parse_string;
use jsonlike::Value;

fn parse(text: &str) -> Result<Value, jsonlike::Error> {
    parse_string(&text.to_string())
}

#[test]
fn keyword_true_parses() {
    assert_eq!(parse("true").unwrap(), Value::Boolean { value: true });
}

#[test]
fn keyword_false_parses() {
    assert_eq!(parse("false").unwrap(), Value::Boolean { value: false });
}

#[test]
fn keyword_null_parses() {
    assert_eq!(parse("null").unwrap(), Value::Null);
}

#[test]
fn simple_string_parses() {
    assert_eq!(
        parse("\"hello\"").unwrap(),
        Value::String { value: "hello".to_string() }
    );
}

#[test]
fn empty_string_parses() {
    assert_eq!(parse("\"\"").unwrap(), Value::String { value: String::new() });
}

#[test]
fn escaped_quote_does_not_end_string() {
    // The escape is skipped over, not decoded: the raw text stays.
    assert_eq!(
        parse("\"a\\\"b\"").unwrap(),
        Value::String { value: "a\\\"b".to_string() }
    );
}

#[test]
fn non_ascii_string_parses() {
    assert_eq!(
        parse("\"héllo\"").unwrap(),
        Value::String { value: "héllo".to_string() }
    );
}

#[test]
fn integer_parses() {
    assert_eq!(parse("42").unwrap(), Value::Integer { value: 42 });
}

#[test]
fn integer_with_trailing_space_parses() {
    assert_eq!(parse("42 ").unwrap(), Value::Integer { value: 42 });
}

#[test]
fn negative_integer_parses() {
    assert_eq!(parse("-7").unwrap(), Value::Integer { value: -7 });
}

#[test]
fn zero_parses() {
    assert_eq!(parse("0").unwrap(), Value::Integer { value: 0 });
}

#[test]
fn leading_zero_stops_the_digit_run() {
    // After a leading zero no further digits are consumed: `0123` reads as
    // the integer 0 with `123` left in the stream.
    assert_eq!(parse("0123").unwrap(), Value::Integer { value: 0 });
}

#[test]
fn largest_integer_parses() {
    assert_eq!(
        parse("9223372036854775807").unwrap(),
        Value::Integer { value: i64::MAX }
    );
}

#[test]
fn smallest_integer_parses() {
    assert_eq!(
        parse("-9223372036854775808").unwrap(),
        Value::Integer { value: i64::MIN }
    );
}

#[test]
fn float_keeps_its_text() {
    assert_eq!(parse("2.5").unwrap(), Value::Float { value: "2.5".to_string() });
}

#[test]
fn float_text_reads_as_f64() {
    match parse("2.5").unwrap() {
        Value::Float { value } => assert_eq!(value.parse::<f64>().unwrap(), 2.5),
        other => panic!("expected a float, got {:?}", other),
    }
}

#[test]
fn float_with_exponent_parses() {
    match parse("1.5e3").unwrap() {
        Value::Float { value } => {
            assert_eq!(value, "1.5e3");
            assert_eq!(value.parse::<f64>().unwrap(), 1500.0);
        }
        other => panic!("expected a float, got {:?}", other),
    }
}

#[test]
fn float_with_uppercase_exponent_parses() {
    assert_eq!(parse("2.0E2").unwrap(), Value::Float { value: "2.0E2".to_string() });
}

#[test]
fn negative_float_parses() {
    match parse("-0.25").unwrap() {
        Value::Float { value } => assert_eq!(value.parse::<f64>().unwrap(), -0.25),
        other => panic!("expected a float, got {:?}", other),
    }
}

#[test]
fn bare_fraction_parses() {
    assert_eq!(parse(".5").unwrap(), Value::Float { value: ".5".to_string() });
}

#[test]
fn integer_before_exponent_mark_stops() {
    // Without a dot the digits are an integer; the `e5` stays in the stream.
    assert_eq!(parse("1e5").unwrap(), Value::Integer { value: 1 });
}

#[test]
fn leading_whitespace_is_skipped() {
    assert_eq!(parse(" \t\n 42 ").unwrap(), Value::Integer { value: 42 });
}
