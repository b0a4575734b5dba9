use crate::text::{display_text, to_text};
use vstd::prelude::*;
use vstd::std_specs::cmp::PartialEqSpecImpl;
use vstd::string::*;

verus! {

/// Why a document is rejected. Each variant but the first carries the piece
/// of the input that the message quotes.
pub enum Failure {
    /// A token was needed and none was left.
    UnexpectedEndOfDocument,
    /// A value was expected, and the token begins none.
    UnknownToken(Seq<u8>),
    /// After an element of an array came a token other than `,` and `]`.
    ExpectedSeparatorOrClose(Seq<u8>),
    /// Behind the value something other than whitespace is left: the input
    /// from the first such byte on.
    TrailingContent(Seq<u8>),
}

impl Failure {
    /// The text of the error that reports this failure.
    pub open spec fn message(self) -> Seq<char> {
        match self {
            Failure::UnexpectedEndOfDocument => "Unexpected end of document"@,
            Failure::UnknownToken(token) => "Unknown token '"@ + display_text(token) + "'"@,
            Failure::ExpectedSeparatorOrClose(token) => "Expected ',' or ']' but got '"@
                + display_text(token) + "'"@,
            Failure::TrailingContent(rest) => "Extra goop at the end of the file: "@
                + display_text(rest),
        }
    }
}

/// The error of a rejected document: a message for a human reader, and
/// nothing else.
#[derive(Debug)]
pub struct ParseError(String);

impl View for ParseError {
    type V = Seq<char>;

    closed spec fn view(&self) -> Seq<char> {
        self.0@
    }
}

impl PartialEq for ParseError {
    /// Two errors are equal when their messages are.
    fn eq(&self, other: &ParseError) -> (same: bool) {
        self.0 == other.0
    }
}

impl PartialEqSpecImpl for ParseError {
    open spec fn obeys_eq_spec() -> bool {
        true
    }

    open spec fn eq_spec(&self, other: &ParseError) -> bool {
        self@ == other@
    }
}

impl ParseError {
    /// The message.
    pub fn message(&self) -> (text: &str)
        ensures
            text@ == self@,
    {
        self.0.as_str()
    }

    /// The error for input that ends where a token is needed.
    pub fn unexpected_end() -> (error: ParseError)
        ensures
            error@ == Failure::UnexpectedEndOfDocument.message(),
    {
        ParseError(String::from_str("Unexpected end of document"))
    }

    /// The error for `token` where a value has to begin.
    pub fn unknown_token(token: &[u8]) -> (error: ParseError)
        ensures
            error@ == Failure::UnknownToken(token@).message(),
    {
        let mut message = String::from_str("Unknown token '");
        let text = to_text(token);
        message.append(text.as_str());
        message.append("'");
        ParseError(message)
    }

    /// The error for `token` where `,` or `]` has to stand.
    pub fn expected_separator_or_close(token: &[u8]) -> (error: ParseError)
        ensures
            error@ == Failure::ExpectedSeparatorOrClose(token@).message(),
    {
        let mut message = String::from_str("Expected ',' or ']' but got '");
        let text = to_text(token);
        message.append(text.as_str());
        message.append("'");
        ParseError(message)
    }

    /// The error for `rest` left over behind a complete value.
    pub fn trailing_content(rest: &[u8]) -> (error: ParseError)
        ensures
            error@ == Failure::TrailingContent(rest@).message(),
    {
        let mut message = String::from_str("Extra goop at the end of the file: ");
        let text = to_text(rest);
        message.append(text.as_str());
        ParseError(message)
    }
}

} // verus!
