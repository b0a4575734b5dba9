use voorhees::error::ParseError;
use voorhees::lexer::Lexer;
use voorhees::parser::parse_;
use voorhees::text::{is_word, to_text};
use voorhees::Value;

#[test]
fn is_word_compares_every_byte() {
    assert!(is_word(b"null", "null"));
    assert!(!is_word(b"nul", "null"));
    assert!(!is_word(b"nulls", "null"));
    assert!(!is_word(b"nulL", "null"));
    assert!(!is_word(b"Null", "null"));
    assert!(is_word(b"", ""));
    assert!(!is_word(b"", "["));
    assert!(is_word(&[0xc3, 0xa9], "\u{e9}"));
}

#[test]
fn to_text_decodes_or_replaces() {
    assert_eq!(to_text(b"abc"), "abc");
    assert_eq!(to_text(b""), "");
    assert_eq!(to_text(&[0xc3, 0xa9]), "\u{e9}");
    assert_eq!(to_text(&[0xc3]), "\u{fffd}");
    assert_eq!(to_text(&[b'a', 0xff, b'b']), "\u{fffd}");
}

#[test]
fn messages() {
    assert_eq!(ParseError::unexpected_end().message(), "Unexpected end of document");
    assert_eq!(ParseError::unknown_token(b"xyz").message(), "Unknown token 'xyz'");
    assert_eq!(
        ParseError::expected_separator_or_close(b"}").message(),
        "Expected ',' or ']' but got '}'"
    );
    assert_eq!(
        ParseError::trailing_content(b"a b").message(),
        "Extra goop at the end of the file: a b"
    );
    assert_ne!(ParseError::unknown_token(b"x"), ParseError::expected_separator_or_close(b"x"));
}

#[test]
fn parse_value_stops_behind_the_value() {
    let mut lexer = Lexer::new(b" [ null , true ] false ]");
    assert_eq!(
        parse_(&mut lexer),
        Ok(Value::Array(vec![Value::Null, Value::Boolean(true)]))
    );
    assert_eq!(lexer.rest(), b"false ]");
    assert_eq!(parse_(&mut lexer), Ok(Value::Boolean(false)));
    assert_eq!(lexer.rest(), b"]");
    assert_eq!(parse_(&mut lexer), Err(ParseError::unknown_token(b"]")));
    assert!(lexer.eof());
    assert_eq!(parse_(&mut lexer), Err(ParseError::unexpected_end()));
}
