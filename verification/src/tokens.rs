use vstd::prelude::*;

verus! {

/// Space, tab, carriage return and line feed: the only bytes skipped between
/// tokens. Form feed and every other byte count as token text.
pub open spec fn is_whitespace(b: u8) -> bool {
    b == ' ' as u8 || b == '\t' as u8 || b == '\r' as u8 || b == '\n' as u8
}

/// The six bytes that always form a token of their own.
pub open spec fn is_punctuation(b: u8) -> bool {
    b == '[' as u8 || b == ']' as u8 || b == '{' as u8 || b == '}' as u8 || b == ',' as u8 || b
        == ':' as u8
}

/// An ASCII letter or an underscore.
pub open spec fn is_identifier_start(b: u8) -> bool {
    ('a' as u8 <= b <= 'z' as u8) || ('A' as u8 <= b <= 'Z' as u8) || b == '_' as u8
}

/// An ASCII letter, an underscore or a decimal digit.
pub open spec fn is_identifier_char(b: u8) -> bool {
    is_identifier_start(b) || ('0' as u8 <= b <= '9' as u8)
}

/// No byte is of two kinds: whitespace, punctuation and identifier bytes
/// have nothing in common, so the first byte of a token decides how far the
/// token goes.
pub proof fn lemma_byte_classes_are_disjoint(b: u8)
    ensures
        !(is_whitespace(b) && is_punctuation(b)),
        !(is_whitespace(b) && is_identifier_char(b)),
        !(is_punctuation(b) && is_identifier_char(b)),
{
}

/// Where the longest run of accepted bytes that starts at `from` stops: the
/// index of the first byte at or after `from` that is not accepted, or the
/// length of `s` when every byte from there on is accepted.
pub open spec fn run_end(s: Seq<u8>, from: int, accepts: spec_fn(u8) -> bool) -> int
    decreases s.len() - from,
{
    if 0 <= from < s.len() && accepts(s[from]) {
        run_end(s, from + 1, accepts)
    } else {
        from
    }
}

/// A run lies inside the buffer, holds accepted bytes only, and cannot be
/// extended.
pub proof fn lemma_run_end(s: Seq<u8>, from: int, accepts: spec_fn(u8) -> bool)
    ensures
        from <= run_end(s, from, accepts),
        from <= s.len() ==> run_end(s, from, accepts) <= s.len(),
        forall|i: int| 0 <= from <= i < run_end(s, from, accepts) ==> accepts(#[trigger] s[i]),
        0 <= run_end(s, from, accepts) < s.len() ==> !accepts(s[run_end(s, from, accepts)]),
    decreases s.len() - from,
{
    if 0 <= from < s.len() && accepts(s[from]) {
        lemma_run_end(s, from + 1, accepts);
    }
}

/// The end of a run is the only index with the three properties of
/// [`lemma_run_end`].
pub proof fn lemma_run_end_unique(s: Seq<u8>, from: int, end: int, accepts: spec_fn(u8) -> bool)
    requires
        0 <= from <= end <= s.len(),
        forall|i: int| from <= i < end ==> accepts(#[trigger] s[i]),
        end < s.len() ==> !accepts(s[end]),
    ensures
        run_end(s, from, accepts) == end,
    decreases end - from,
{
    if from < end {
        lemma_run_end_unique(s, from + 1, end, accepts);
    }
}

/// The first index at or after `from` that holds no whitespace.
pub open spec fn whitespace_end(s: Seq<u8>, from: int) -> int {
    run_end(s, from, |b: u8| is_whitespace(b))
}

/// The first index at or after `from` that holds no identifier byte.
pub open spec fn identifier_end(s: Seq<u8>, from: int) -> int {
    run_end(s, from, |b: u8| is_identifier_char(b))
}

/// Where the token that starts at `start` ends. Punctuation is one byte long,
/// an identifier runs as far as identifier bytes go, and any other byte is a
/// token of its own.
pub open spec fn token_end(s: Seq<u8>, start: int) -> int {
    if is_punctuation(s[start]) {
        start + 1
    } else if is_identifier_start(s[start]) {
        identifier_end(s, start)
    } else {
        start + 1
    }
}

/// The text of the token read by a lexer whose cursor is at `from`; empty
/// when only whitespace is left.
pub open spec fn next_token(s: Seq<u8>, from: int) -> Seq<u8> {
    let start = whitespace_end(s, from);
    if start < s.len() {
        s.subrange(start, token_end(s, start))
    } else {
        Seq::empty()
    }
}

/// Where the cursor stands after reading a token from `from`: past the token
/// and the whitespace behind it.
pub open spec fn after_token(s: Seq<u8>, from: int) -> int {
    let start = whitespace_end(s, from);
    if start < s.len() {
        whitespace_end(s, token_end(s, start))
    } else {
        start
    }
}

/// One token of the input: its text and the index of its first byte.
pub struct Token {
    pub offset: int,
    pub text: Seq<u8>,
}

/// A token is at least one byte long and ends inside the buffer.
pub proof fn lemma_token_end(s: Seq<u8>, start: int)
    requires
        0 <= start < s.len(),
    ensures
        start < token_end(s, start) <= s.len(),
{
    lemma_run_end(s, start + 1, |b: u8| is_identifier_char(b));
}

/// All tokens that a lexer with its cursor at `from` will hand out, in order.
pub open spec fn tokens_from(s: Seq<u8>, from: int) -> Seq<Token>
    decreases s.len() - from,
{
    let start = whitespace_end(s, from);
    if 0 <= from && start < s.len() {
        proof {
            lemma_run_end(s, from, |b: u8| is_whitespace(b));
            lemma_token_end(s, start);
        }
        seq![Token { offset: start, text: s.subrange(start, token_end(s, start)) }] + tokens_from(
            s,
            token_end(s, start),
        )
    } else {
        Seq::empty()
    }
}

/// All tokens of `s`.
pub open spec fn tokens(s: Seq<u8>) -> Seq<Token> {
    tokens_from(s, 0)
}

/// The texts of `tokens`, without their offsets.
pub open spec fn texts(tokens: Seq<Token>) -> Seq<Seq<u8>> {
    tokens.map_values(|t: Token| t.text)
}

/// Skipping whitespace twice is skipping it once.
pub proof fn lemma_whitespace_end_settled(s: Seq<u8>, from: int)
    requires
        0 <= from <= s.len(),
    ensures
        from <= whitespace_end(s, from) <= s.len(),
        whitespace_end(s, whitespace_end(s, from)) == whitespace_end(s, from),
        tokens_from(s, whitespace_end(s, from)) == tokens_from(s, from),
{
    lemma_run_end(s, from, |b: u8| is_whitespace(b));
}

/// What the next token and the cursor behind it have to do with the stream
/// of tokens.
pub proof fn lemma_tokens_step(s: Seq<u8>, from: int)
    requires
        0 <= from <= s.len(),
    ensures
        from <= after_token(s, from) <= s.len(),
        tokens_from(s, from).len() == 0 <==> whitespace_end(s, from) >= s.len(),
        tokens_from(s, from).len() == 0 ==> {
            &&& next_token(s, from).len() == 0
            &&& after_token(s, from) == s.len()
            &&& tokens_from(s, after_token(s, from)).len() == 0
        },
        tokens_from(s, from).len() > 0 ==> {
            &&& tokens_from(s, from)[0].offset == whitespace_end(s, from)
            &&& tokens_from(s, from)[0].text == next_token(s, from)
            &&& next_token(s, from).len() > 0
            &&& from < after_token(s, from)
            &&& tokens_from(s, after_token(s, from)) == tokens_from(s, from).skip(1)
        },
{
    let start = whitespace_end(s, from);
    lemma_whitespace_end_settled(s, from);
    if start < s.len() {
        lemma_token_end(s, start);
        let end = token_end(s, start);
        lemma_whitespace_end_settled(s, end);
    }
}

} // verus!
