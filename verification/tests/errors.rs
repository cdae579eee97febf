use jsonlike::parse_string;
use jsonlike::Error;
use jsonlike::ErrorType;
use jsonlike::Value;

fn parse(text: &str) -> Result<Value, Error> {
    parse_string(&text.to_string())
}

fn error_of(text: &str) -> Error {
    parse(text).unwrap_err()
}

#[test]
fn trailing_comma_in_array_is_rejected() {
    assert!(parse("[1,]").is_err());
    assert_eq!(error_of("[1,]").error, ErrorType::InvalidInteger);
}

#[test]
fn trailing_comma_in_dict_is_rejected() {
    assert!(parse("{\"a\":1,}").is_err());
    assert_eq!(error_of("{\"a\":1,}").error, ErrorType::ExpectedDictKey);
}

#[test]
fn missing_colon_reports_the_key() {
    let e = error_of("{\"a\" 1}");
    assert_eq!(e.error, ErrorType::ExpectedDictColonAfterKey { key: "a".to_string() });
    assert_eq!(e.line, 0);
}

#[test]
fn missing_array_separator_is_reported() {
    assert_eq!(error_of("[1 2]").error, ErrorType::ExpectedArrayCloseOrComma);
}

#[test]
fn missing_dict_separator_is_reported() {
    assert_eq!(error_of("{\"a\":1 \"b\":2}").error, ErrorType::ExpectedDictCloseOrComma);
}

#[test]
fn unquoted_key_is_rejected() {
    assert_eq!(error_of("{a:1}").error, ErrorType::ExpectedDictKey);
}

#[test]
fn truncated_dict_fails_with_end_of_file() {
    assert_eq!(error_of("{").error, ErrorType::UnexpectedEndOfFile);
}

#[test]
fn truncated_array_fails_with_end_of_file() {
    assert_eq!(error_of("[1").error, ErrorType::UnexpectedEndOfFile);
}

#[test]
fn unterminated_string_fails_with_end_of_file() {
    assert_eq!(error_of("\"abc").error, ErrorType::UnexpectedEndOfFile);
}

#[test]
fn truncated_keyword_fails_with_end_of_file() {
    assert_eq!(error_of("tru").error, ErrorType::UnexpectedEndOfFile);
}

#[test]
fn empty_document_fails_with_end_of_file() {
    assert_eq!(error_of("").error, ErrorType::UnexpectedEndOfFile);
}

#[test]
fn whitespace_only_document_fails_with_end_of_file() {
    assert_eq!(error_of("  \n ").error, ErrorType::UnexpectedEndOfFile);
}

#[test]
fn misspelled_keyword_reports_the_expected_literal() {
    // The reported keyword is the expected literal, not the offending text.
    assert_eq!(
        error_of("nulx").error,
        ErrorType::UnknownKeyword { keyword: "null".to_string() }
    );
    assert_eq!(
        error_of("flase").error,
        ErrorType::UnknownKeyword { keyword: "false".to_string() }
    );
}

#[test]
fn misspelled_keyword_inside_array_is_reported() {
    assert_eq!(
        error_of("[nul]").error,
        ErrorType::UnknownKeyword { keyword: "null".to_string() }
    );
}

#[test]
fn capitalised_keyword_reads_as_a_number() {
    // Dispatch sends any byte other than the known openers to the numeric
    // parse, so `True` fails as an invalid integer, not as a keyword.
    assert_eq!(error_of("True").error, ErrorType::InvalidInteger);
}

#[test]
fn integer_overflow_is_reported() {
    assert_eq!(error_of("9223372036854775808").error, ErrorType::InvalidInteger);
    assert_eq!(error_of("-9223372036854775809").error, ErrorType::InvalidInteger);
}

#[test]
fn bare_minus_fails_with_end_of_file() {
    assert_eq!(error_of("-").error, ErrorType::UnexpectedEndOfFile);
}

#[test]
fn lone_dot_is_an_invalid_float() {
    assert_eq!(error_of(".").error, ErrorType::InvalidFloat);
    assert_eq!(error_of("-.").error, ErrorType::InvalidFloat);
}

#[test]
fn exponent_without_digits_is_an_invalid_float() {
    assert_eq!(error_of("1.e").error, ErrorType::InvalidFloat);
    assert_eq!(error_of("1.0e+5").error, ErrorType::InvalidFloat);
}

#[test]
fn error_lines_count_consumed_newlines() {
    let e = error_of("[\n1,\n x]");
    assert_eq!(e.error, ErrorType::InvalidInteger);
    assert_eq!(e.line, 2);
}

#[test]
fn end_of_file_line_counts_all_newlines() {
    let e = error_of("\n\n[");
    assert_eq!(e.error, ErrorType::UnexpectedEndOfFile);
    assert_eq!(e.line, 2);
}

#[test]
fn newlines_inside_strings_count_toward_error_lines() {
    let e = error_of("[\"a\nb\"x]");
    assert_eq!(e.error, ErrorType::ExpectedArrayCloseOrComma);
    assert_eq!(e.line, 1);
}

#[test]
fn newline_inside_a_key_counts_toward_the_colon_line() {
    let e = error_of("{\"a\nb\" 1}");
    assert_eq!(
        e.error,
        ErrorType::ExpectedDictColonAfterKey { key: "a\nb".to_string() }
    );
    assert_eq!(e.line, 1);
}

#[test]
fn missing_colon_line_is_where_the_key_ended() {
    let e = error_of("{\n\"a\" 1}");
    assert_eq!(e.error, ErrorType::ExpectedDictColonAfterKey { key: "a".to_string() });
    assert_eq!(e.line, 1);
}
