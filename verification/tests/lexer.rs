use voorhees::lexer::Lexer;

fn all_tokens(input: &[u8]) -> Vec<Vec<u8>> {
    let mut lexer = Lexer::new(input);
    let mut out = Vec::new();
    loop {
        let token = lexer.token();
        if token.is_empty() {
            assert!(lexer.eof());
            return out;
        }
        out.push(token.to_vec());
    }
}

fn owned(tokens: &[&[u8]]) -> Vec<Vec<u8>> {
    tokens.iter().map(|t| t.to_vec()).collect()
}

#[test]
fn new_lexer_is_at_the_start() {
    let lexer = Lexer::new(b"ab");
    assert!(!lexer.eof());
    assert_eq!(lexer.peek_byte(), Some(b'a'));
    assert_eq!(lexer.rest(), b"ab");
    assert!(Lexer::new(b"").eof());
}

#[test]
fn advance_stops_at_the_end() {
    let mut lexer = Lexer::new(b"ab");
    lexer.advance();
    assert_eq!(lexer.rest(), b"b");
    lexer.advance();
    assert!(lexer.eof());
    assert_eq!(lexer.rest(), b"");
    lexer.advance();
    assert!(lexer.eof());
    assert_eq!(lexer.rest(), b"");
    assert_eq!(lexer.peek_byte(), None);
}

#[test]
fn peek_byte_does_not_consume() {
    let lexer = Lexer::new(b"xy");
    assert_eq!(lexer.peek_byte(), Some(b'x'));
    assert_eq!(lexer.peek_byte(), Some(b'x'));
    assert_eq!(lexer.rest(), b"xy");
}

#[test]
fn take_byte_consumes_one_byte() {
    let mut lexer = Lexer::new(b"xy");
    assert_eq!(lexer.take_byte(), Some(b'x'));
    assert_eq!(lexer.take_byte(), Some(b'y'));
    assert_eq!(lexer.take_byte(), None);
    assert_eq!(lexer.take_byte(), None);
    assert!(lexer.eof());
}

#[test]
fn take_tests_the_next_byte_and_stays() {
    let mut lexer = Lexer::new(b"xy");
    assert_eq!(lexer.take(|b| b == b'x'), Some(b'x'));
    assert_eq!(lexer.rest(), b"xy");
    assert_eq!(lexer.take(|b| b == b'y'), None);
    assert_eq!(lexer.rest(), b"xy");
    let mut empty = Lexer::new(b"");
    assert_eq!(empty.take(|_| true), None);
}

#[test]
fn take_while_takes_the_longest_run() {
    let mut lexer = Lexer::new(b"aaab");
    assert_eq!(lexer.take_while(|b| b == b'a'), b"aaa");
    assert_eq!(lexer.rest(), b"b");
    assert_eq!(lexer.take_while(|b| b == b'a'), b"");
    assert_eq!(lexer.rest(), b"b");
    assert_eq!(lexer.take_while(|_| true), b"b");
    assert!(lexer.eof());
    assert_eq!(lexer.take_while(|_| true), b"");
}

#[test]
fn skip_whitespace_knows_four_bytes() {
    let mut lexer = Lexer::new(b" \t\r\n\x0c x");
    lexer.skip_whitespace();
    assert_eq!(lexer.rest(), b"\x0c x");
    lexer.skip_whitespace();
    assert_eq!(lexer.rest(), b"\x0c x");
    let mut blank = Lexer::new(b"  \n");
    blank.skip_whitespace();
    assert!(blank.eof());
}

#[test]
fn identifier_bytes() {
    for b in 0..=255u8 {
        let start = b.is_ascii_alphabetic() || b == b'_';
        assert_eq!(Lexer::is_identifier_start(b), start, "byte {}", b);
        assert_eq!(Lexer::is_identifier_char(b), start || b.is_ascii_digit(), "byte {}", b);
    }
}

#[test]
fn token_skips_whitespace_on_both_sides() {
    let mut lexer = Lexer::new(b"  null \t [");
    assert_eq!(lexer.token(), b"null");
    assert_eq!(lexer.rest(), b"[");
    assert_eq!(lexer.token(), b"[");
    assert!(lexer.eof());
    assert_eq!(lexer.token(), b"");
    assert_eq!(lexer.token(), b"");
    assert!(lexer.eof());
}

#[test]
fn token_at_end_consumes_trailing_whitespace() {
    let mut lexer = Lexer::new(b"   ");
    assert_eq!(lexer.token(), b"");
    assert!(lexer.eof());
}

#[test]
fn punctuation_is_one_byte_each() {
    assert_eq!(all_tokens(b"[]{},:"), owned(&[b"[", b"]", b"{", b"}", b",", b":"]));
    assert_eq!(all_tokens(b"[[true]]"), owned(&[b"[", b"[", b"true", b"]", b"]"]));
}

#[test]
fn identifiers_run_as_far_as_they_can() {
    assert_eq!(all_tokens(b"abc_9Z x1,_"), owned(&[b"abc_9Z", b"x1", b",", b"_"]));
    assert_eq!(all_tokens(b"truefalse"), owned(&[b"truefalse"]));
    assert_eq!(all_tokens(b"true false"), owned(&[b"true", b"false"]));
}

#[test]
fn other_bytes_come_one_at_a_time() {
    assert_eq!(all_tokens(b"123"), owned(&[b"1", b"2", b"3"]));
    assert_eq!(all_tokens(b"1a2"), owned(&[b"1", b"a2"]));
    assert_eq!(all_tokens(b"\"hi\""), owned(&[b"\"", b"hi", b"\""]));
    assert_eq!(all_tokens(b"-\x0c\x00"), owned(&[b"-", b"\x0c", b"\x00"]));
    assert_eq!(all_tokens(&[0xc3, 0xa9, b'a']), owned(&[&[0xc3], &[0xa9], b"a"]));
}

#[test]
fn whitespace_between_tokens_leaves_the_tokens_alone() {
    let plain = all_tokens(b"[true,[false,null]]");
    assert_eq!(all_tokens(b" [ true , [ false , null ] ] "), plain);
    assert_eq!(all_tokens(b"\r\n[\ttrue\n,[false ,null]\r]"), plain);
    assert_ne!(all_tokens(b"[tr ue,[false,null]]"), plain);
}

#[test]
fn tokens_are_slices_of_the_input() {
    let input = b" ab  cd ";
    let mut lexer = Lexer::new(input);
    let first = lexer.token();
    let second = lexer.token();
    assert!(std::ptr::eq(first.as_ptr(), input[1..].as_ptr()));
    assert!(std::ptr::eq(second.as_ptr(), input[5..].as_ptr()));
}
