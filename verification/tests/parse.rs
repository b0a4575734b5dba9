use voorhees::{parse, ParseError, Value};

#[test]
fn prims() {
    assert_eq!(Ok(Value::Null), parse("null"));
    assert_eq!(Ok(Value::Boolean(true)), parse("true"));
    assert_eq!(Ok(Value::Boolean(false)), parse("false"));
}

#[test]
fn simple_array() {
    let expected = vec![Value::Boolean(true), Value::Boolean(false), Value::Null];
    assert_eq!(Ok(Value::Array(expected)), parse("[true,false,null]"));
}

#[test]
fn nested_array() {
    let expected = Value::Array(vec![
        Value::Boolean(true),
        Value::Array(vec![Value::Boolean(false), Value::Null]),
    ]);

    assert_eq!(Ok(expected), parse("[true,[false,null]]"));
}

#[test]
fn whitespace() {
    let expected = Value::Array(vec![Value::Boolean(true), Value::Boolean(false)]);

    assert_eq!(Ok(expected), parse(" [ true , false ] "));
}

#[test]
fn whitespace_does_not_change_the_value() {
    assert_eq!(parse(" [ true , false ] "), parse("[true,false]"));
    assert_eq!(parse("\t[\r\ntrue\n,\n[ null ]\n]\n"), parse("[true,[null]]"));
}

#[test]
fn empty_input_is_unexpected_end() {
    let error = parse("").unwrap_err();
    assert_eq!(error.message(), "Unexpected end of document");
    assert_eq!(error, ParseError::unexpected_end());
    assert_eq!(parse(" \t\r\n"), Err(ParseError::unexpected_end()));
}

#[test]
fn empty_array_is_rejected() {
    let error = parse("[]").unwrap_err();
    assert_eq!(error.message(), "Unknown token ']'");
    assert_eq!(parse("[ ]"), Err(ParseError::unknown_token(b"]")));
    assert_eq!(parse("[[]]"), Err(ParseError::unknown_token(b"]")));
}

#[test]
fn trailing_comma_is_rejected() {
    let error = parse("[true,]").unwrap_err();
    assert_eq!(error.message(), "Unknown token ']'");
}

#[test]
fn trailing_content_is_quoted() {
    let error = parse("null extra").unwrap_err();
    assert_eq!(error.message(), "Extra goop at the end of the file: extra");
    assert!(error.message().contains("extra"));
    assert_eq!(error, ParseError::trailing_content(b"extra"));
}

#[test]
fn trailing_content_keeps_its_own_whitespace() {
    let error = parse("[null]  true  false \n").unwrap_err();
    assert_eq!(error.message(), "Extra goop at the end of the file: true  false \n");
}

#[test]
fn unknown_identifier_is_quoted_whole() {
    let error = parse("xyz").unwrap_err();
    assert_eq!(error.message(), "Unknown token 'xyz'");
    assert_eq!(parse("nul"), Err(ParseError::unknown_token(b"nul")));
    assert_eq!(parse("nulls"), Err(ParseError::unknown_token(b"nulls")));
    assert_eq!(parse("true1"), Err(ParseError::unknown_token(b"true1")));
    assert_eq!(parse("_x9 y"), Err(ParseError::unknown_token(b"_x9")));
    assert_eq!(parse("True"), Err(ParseError::unknown_token(b"True")));
}

#[test]
fn other_bytes_are_tokens_of_one_byte() {
    assert_eq!(parse("12"), Err(ParseError::unknown_token(b"1")));
    assert_eq!(parse("\"a\""), Err(ParseError::unknown_token(b"\"")));
    assert_eq!(parse("-"), Err(ParseError::unknown_token(b"-")));
}

#[test]
fn object_punctuation_is_lexed_and_rejected() {
    assert_eq!(parse("{}"), Err(ParseError::unknown_token(b"{")));
    assert_eq!(parse("}"), Err(ParseError::unknown_token(b"}")));
    assert_eq!(parse(":"), Err(ParseError::unknown_token(b":")));
    assert_eq!(parse(","), Err(ParseError::unknown_token(b",")));
    assert_eq!(parse("[true:false]"), Err(ParseError::expected_separator_or_close(b":")));
    assert_eq!(parse("null{"), Err(ParseError::trailing_content(b"{")));
}

#[test]
fn form_feed_is_not_whitespace() {
    assert_eq!(parse("\x0cnull"), Err(ParseError::unknown_token(b"\x0c")));
    assert_eq!(parse("null\x0c"), Err(ParseError::trailing_content(b"\x0c")));
    assert_eq!(parse("\x0bnull"), Err(ParseError::unknown_token(b"\x0b")));
}

#[test]
fn array_needs_separator_or_close() {
    let error = parse("[true false]").unwrap_err();
    assert_eq!(error.message(), "Expected ',' or ']' but got 'false'");
    assert_eq!(parse("[true[null]]"), Err(ParseError::expected_separator_or_close(b"[")));
    assert_eq!(parse("[null 7]"), Err(ParseError::expected_separator_or_close(b"7")));
}

#[test]
fn unclosed_array_is_unexpected_end() {
    assert_eq!(parse("["), Err(ParseError::unexpected_end()));
    assert_eq!(parse("[true"), Err(ParseError::unexpected_end()));
    assert_eq!(parse("[true,"), Err(ParseError::unexpected_end()));
    assert_eq!(parse("[true,[false]"), Err(ParseError::unexpected_end()));
}

#[test]
fn first_error_wins() {
    assert_eq!(parse("[xyz"), Err(ParseError::unknown_token(b"xyz")));
    assert_eq!(parse("[true false"), Err(ParseError::expected_separator_or_close(b"false")));
    assert_eq!(parse("] extra"), Err(ParseError::unknown_token(b"]")));
}

#[test]
fn order_and_nesting_are_kept() {
    let expected = Value::Array(vec![
        Value::Array(vec![Value::Array(vec![Value::Null])]),
        Value::Boolean(false),
        Value::Array(vec![Value::Boolean(true), Value::Null]),
        Value::Null,
    ]);
    assert_eq!(Ok(expected), parse("[[[null]],false,[true,null],null]"));
}

#[test]
fn tokens_need_no_whitespace_between_them() {
    assert_eq!(parse("null]"), Err(ParseError::trailing_content(b"]")));
    assert_eq!(parse("null,true"), Err(ParseError::trailing_content(b",true")));
    assert_eq!(parse("[null]null"), Err(ParseError::trailing_content(b"null")));
}

#[test]
fn parsing_twice_gives_equal_results() {
    for text in ["null", " [ true , [ false , null ] ] ", "[true,]", "", "null extra", "xyz"] {
        assert_eq!(parse(text), parse(text));
    }
}

#[test]
fn text_that_is_not_ascii() {
    let error = parse("\u{e9}").unwrap_err();
    assert_eq!(error.message(), "Unknown token '\u{fffd}'");
    let error = parse("[null \u{4e16}]").unwrap_err();
    assert_eq!(error.message(), "Expected ',' or ']' but got '\u{fffd}'");
    let error = parse("null \u{e9}t\u{e9} \u{1f600}").unwrap_err();
    assert_eq!(error.message(), "Extra goop at the end of the file: \u{e9}t\u{e9} \u{1f600}");
}

#[test]
fn values_are_equal_when_their_trees_are() {
    assert_eq!(Value::Null, Value::Null);
    assert_ne!(Value::Null, Value::Boolean(false));
    assert_ne!(Value::Boolean(true), Value::Boolean(false));
    assert_ne!(Value::Array(vec![Value::Null]), Value::Null);
    assert_ne!(
        Value::Array(vec![Value::Null]),
        Value::Array(vec![Value::Null, Value::Null])
    );
    assert_ne!(
        Value::Array(vec![Value::Null, Value::Boolean(true)]),
        Value::Array(vec![Value::Boolean(true), Value::Null])
    );
    assert_eq!(
        Value::Array(vec![Value::Array(vec![Value::Boolean(true)]), Value::Null]),
        Value::Array(vec![Value::Array(vec![Value::Boolean(true)]), Value::Null])
    );
    assert_ne!(
        Value::Array(vec![Value::Array(vec![Value::Boolean(true)]), Value::Null]),
        Value::Array(vec![Value::Array(vec![Value::Boolean(false)]), Value::Null])
    );
    assert_eq!(Value::Array(vec![]), Value::Array(vec![]));
}

#[test]
fn deep_nesting() {
    let depth = 200;
    let mut text = String::new();
    let mut expected = Value::Boolean(true);
    for _ in 0..depth {
        text.push_str("[ ");
        expected = Value::Array(vec![expected]);
    }
    text.push_str("true");
    for _ in 0..depth {
        text.push_str(" ]");
    }
    assert_eq!(parse(&text), Ok(expected));
}

#[test]
fn a_document_is_what_its_tokens_spell() {
    fn spell(value: &Value, out: &mut Vec<&'static str>) {
        match value {
            Value::Null => out.push("null"),
            Value::Boolean(true) => out.push("true"),
            Value::Boolean(false) => out.push("false"),
            Value::Array(items) => {
                out.push("[");
                for (i, item) in items.iter().enumerate() {
                    if i > 0 {
                        out.push(",");
                    }
                    spell(item, out);
                }
                out.push("]");
            }
        }
    }
    let value = Value::Array(vec![
        Value::Null,
        Value::Array(vec![Value::Boolean(true), Value::Array(vec![Value::Boolean(false)])]),
        Value::Boolean(false),
    ]);
    let mut words = Vec::new();
    spell(&value, &mut words);
    assert_eq!(parse(&words.concat()), Ok(value));
    let value = Value::Array(vec![Value::Null, Value::Array(vec![Value::Boolean(true)])]);
    let mut words = Vec::new();
    spell(&value, &mut words);
    assert_eq!(parse(&words.join(" \n\t")), Ok(value));
}
