use jsonlike::ErrorType;
use jsonlike::Parser;
use jsonlike::Value;

#[test]
fn new_parser_starts_at_zero() {
    let doc = "abc".to_string();
    let p = Parser::new(&doc);
    assert_eq!(p.caret, 0);
    assert_eq!(p.line, 0);
    assert_eq!(p.document, b"abc".to_vec());
}

#[test]
fn peek_does_not_consume() {
    let doc = "ab".to_string();
    let p = Parser::new(&doc);
    assert_eq!(p.peek().unwrap(), b'a');
    assert_eq!(p.peek().unwrap(), b'a');
    assert_eq!(p.caret, 0);
}

#[test]
fn peek_past_the_end_fails() {
    let doc = String::new();
    let p = Parser::new(&doc);
    assert_eq!(p.peek().unwrap_err().error, ErrorType::UnexpectedEndOfFile);
}

#[test]
fn advance_consumes_one_byte() {
    let doc = "ab".to_string();
    let mut p = Parser::new(&doc);
    assert_eq!(p.advance().unwrap(), b'a');
    assert_eq!(p.advance().unwrap(), b'b');
    assert_eq!(p.advance().unwrap_err().error, ErrorType::UnexpectedEndOfFile);
}

#[test]
fn check_consumes_only_on_a_match() {
    let doc = "ab".to_string();
    let mut p = Parser::new(&doc);
    assert!(!p.check(b'b').unwrap());
    assert_eq!(p.caret, 0);
    assert!(p.check(b'a').unwrap());
    assert_eq!(p.caret, 1);
}

#[test]
fn skip_whitespace_counts_newlines() {
    let doc = " \t\n \n x".to_string();
    let mut p = Parser::new(&doc);
    p.skip_whitespace().unwrap();
    assert_eq!(p.line, 2);
    assert_eq!(p.caret, 6);
    assert_eq!(p.peek().unwrap(), b'x');
}

#[test]
fn skip_whitespace_at_the_end_fails() {
    let doc = "  ".to_string();
    let mut p = Parser::new(&doc);
    assert_eq!(
        p.skip_whitespace().unwrap_err().error,
        ErrorType::UnexpectedEndOfFile
    );
}

#[test]
fn word_consumes_a_matching_literal() {
    let doc = "true".to_string();
    let mut p = Parser::new(&doc);
    assert!(p.word(b"true").is_ok());
    assert_eq!(p.caret, 4);
}

#[test]
fn word_reports_the_expected_literal() {
    let doc = "trXe".to_string();
    let mut p = Parser::new(&doc);
    assert_eq!(
        p.word(b"true").unwrap_err().error,
        ErrorType::UnknownKeyword { keyword: "true".to_string() }
    );
}

#[test]
fn string_returns_the_text_between_quotes() {
    let doc = "\"hi\" rest".to_string();
    let mut p = Parser::new(&doc);
    assert_eq!(p.string().unwrap(), "hi");
    assert_eq!(p.caret, 4);
}

#[test]
fn string_counts_newlines_inside() {
    let doc = "\"a\nb\"".to_string();
    let mut p = Parser::new(&doc);
    assert_eq!(p.string().unwrap(), "a\nb");
    assert_eq!(p.line, 1);
}

#[test]
fn string_counts_an_escaped_newline() {
    let doc = "\"a\\\n\"".to_string();
    let mut p = Parser::new(&doc);
    assert_eq!(p.string().unwrap(), "a\\\n");
    assert_eq!(p.line, 1);
}

#[test]
fn number_reads_an_integer_and_stops() {
    let doc = "123]".to_string();
    let mut p = Parser::new(&doc);
    assert_eq!(p.number().unwrap(), Value::Integer { value: 123 });
    assert_eq!(p.caret, 3);
}

#[test]
fn error_carries_the_current_line() {
    let doc = "\n\nx".to_string();
    let mut p = Parser::new(&doc);
    p.skip_whitespace().unwrap();
    let e = p.error(ErrorType::ExpectedDictKey);
    assert_eq!(e.line, 2);
    assert_eq!(e.error, ErrorType::ExpectedDictKey);
}

#[test]
fn parse_leaves_trailing_input_unconsumed() {
    let doc = "1 x".to_string();
    let mut p = Parser::new(&doc);
    assert_eq!(p.parse().unwrap(), Value::Integer { value: 1 });
    assert_eq!(p.caret, 1);
}
