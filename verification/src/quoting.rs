use crate::error::Failure;
use crate::grammar::{
    lemma_parse_value_failure, lemma_parse_value_sound, parse_document, parse_value, quoted_token,
    spell, spell_elements,
};
use crate::text::{display_text, replacement};
use crate::tokens::{
    is_identifier_char, is_whitespace, lemma_run_end, lemma_token_end, texts, token_end, tokens,
    tokens_from, whitespace_end, Token,
};
use crate::value::Tree;
use vstd::prelude::*;
use vstd::utf8::*;

verus! {

/// Whether every byte of `bytes` is an ASCII character.
pub open spec fn is_ascii(bytes: Seq<u8>) -> bool {
    forall|i: int| 0 <= i < bytes.len() ==> #[trigger] bytes[i] <= 0x7f
}

/// Whether every text of `ts` is ASCII.
pub open spec fn all_ascii(ts: Seq<Seq<u8>>) -> bool {
    forall|i: int| 0 <= i < ts.len() ==> is_ascii(#[trigger] ts[i])
}

/// A value is spelled in ASCII.
pub proof fn lemma_spelling_is_ascii(tree: Tree)
    ensures
        all_ascii(spell(tree)),
    decreases tree,
{
    match tree {
        Tree::Array(elements) => {
            lemma_elements_spelling_is_ascii(elements);
        },
        _ => {},
    }
}

/// The elements of an array are spelled in ASCII.
pub proof fn lemma_elements_spelling_is_ascii(elements: Seq<Tree>)
    ensures
        all_ascii(spell_elements(elements)),
    decreases elements,
{
    if elements.len() >= 1 {
        lemma_spelling_is_ascii(elements[0]);
        if elements.len() > 1 {
            lemma_elements_spelling_is_ascii(elements.skip(1));
        }
    }
}

/// Where the first `n` tokens are ASCII, so is every byte in front of the
/// token behind them.
proof fn lemma_ascii_up_to_token(s: Seq<u8>, from: int, n: int)
    requires
        0 <= from <= s.len(),
        0 <= n < tokens_from(s, from).len(),
        forall|j: int| 0 <= j < n ==> is_ascii(#[trigger] tokens_from(s, from)[j].text),
    ensures
        from <= tokens_from(s, from)[n].offset < s.len(),
        forall|i: int| from <= i < tokens_from(s, from)[n].offset ==> #[trigger] s[i] <= 0x7f,
    decreases n,
{
    let toks = tokens_from(s, from);
    let start = whitespace_end(s, from);
    lemma_run_end(s, from, |c: u8| is_whitespace(c));
    if n > 0 {
        let end = token_end(s, start);
        lemma_token_end(s, start);
        assert forall|j: int| 0 <= j < n - 1 implies is_ascii(
            #[trigger] tokens_from(s, end)[j].text,
        ) by {
            assert(tokens_from(s, end)[j] == toks[j + 1]);
        }
        lemma_ascii_up_to_token(s, end, n - 1);
        assert forall|i: int| from <= i < toks[n].offset implies #[trigger] s[i] <= 0x7f by {
            if start <= i < end {
                assert(s[i] == toks[0].text[i - start]);
            }
        }
    }
}

/// What is left over behind the value is text where the whole input is: it
/// begins where a character begins, so the message quotes it as it stands.
pub proof fn lemma_trailing_content_is_text(s: Seq<u8>)
    requires
        valid_utf8(s),
        parse_document(s) is Err,
        parse_document(s)->Err_0 is TrailingContent,
    ensures
        valid_utf8(parse_document(s)->Err_0->TrailingContent_0),
        display_text(parse_document(s)->Err_0->TrailingContent_0) == decode_utf8(
            parse_document(s)->Err_0->TrailingContent_0,
        ),
{
    let toks = tokens(s);
    let ts = texts(toks);
    lemma_parse_value_failure(ts);
    let (tree, n) = parse_value(ts)->Ok_0;
    let at = toks[n as int].offset;
    let rest = s.subrange(at, s.len() as int);
    lemma_parse_value_sound(ts);
    lemma_spelling_is_ascii(tree);
    assert forall|j: int| 0 <= j < n implies is_ascii(#[trigger] toks[j].text) by {
        assert(toks[j].text == ts.take(n as int)[j]);
    }
    lemma_ascii_up_to_token(s, 0, n as int);
    assert forall|i: int| 0 <= 0 <= i < at <= s.len() implies #[trigger] is_leading_byte_width_1(
        s[i],
    ) by {}
    partial_valid_utf8_extend_ascii_block(s, 0, at);
    if !valid_utf8(rest) {
        partial_valid_partial_invalid_utf8(s, at);
    }
}

/// ASCII bytes read as characters, one for one.
pub open spec fn ascii_text(bytes: Seq<u8>) -> Seq<char> {
    Seq::new(bytes.len(), |i: int| bytes[i] as char)
}

/// ASCII is shown as it is.
pub proof fn lemma_ascii_is_text(bytes: Seq<u8>)
    requires
        is_ascii(bytes),
    ensures
        valid_utf8(bytes),
        display_text(bytes) == ascii_text(bytes),
{
    let chars = ascii_text(bytes);
    is_ascii_chars_encode_utf8(chars);
    assert(encode_utf8(chars) =~= bytes);
    encode_utf8_valid_utf8(chars);
    encode_utf8_decode_utf8(chars);
}

/// A single byte that is not ASCII is no text, and is shown as U+FFFD.
pub proof fn lemma_lone_byte_is_replaced(bytes: Seq<u8>)
    requires
        bytes.len() == 1,
        !is_ascii(bytes),
    ensures
        !valid_utf8(bytes),
        display_text(bytes) == replacement(),
{
}

/// A token is an identifier or a single byte: it is never empty, and where it
/// is longer than one byte it is ASCII.
pub proof fn lemma_token_shape(s: Seq<u8>, from: int, i: int)
    requires
        0 <= from <= s.len(),
        0 <= i < tokens_from(s, from).len(),
    ensures
        tokens_from(s, from)[i].text.len() > 0,
        tokens_from(s, from)[i].text.len() == 1 || is_ascii(tokens_from(s, from)[i].text),
    decreases i,
{
    let start = whitespace_end(s, from);
    lemma_run_end(s, from, |c: u8| is_whitespace(c));
    let end = token_end(s, start);
    let head = seq![Token { offset: start, text: s.subrange(start, end) }];
    assert(tokens_from(s, from) == head + tokens_from(s, end));
    if i > 0 {
        lemma_token_shape(s, end, i - 1);
    } else {
        lemma_run_end(s, start, |c: u8| is_identifier_char(c));
    }
}

/// The token that a message quotes is shown as it stands where it is ASCII.
/// Where it is not, it is a single byte, and is shown as U+FFFD.
pub proof fn lemma_quoted_token_is_shown(s: Seq<u8>)
    ensures
        parse_document(s) matches Err(failure) ==> (quoted_token(failure) matches Some(token)
            ==> display_text(token) == if is_ascii(token) {
            ascii_text(token)
        } else {
            replacement()
        }),
{
    let toks = tokens(s);
    let ts = texts(toks);
    lemma_parse_value_failure(ts);
    if let Err(failure) = parse_document(s) {
        if let Some(token) = quoted_token(failure) {
            let i = choose|i: int| 0 <= i < ts.len() && ts[i] == token;
            lemma_token_shape(s, 0, i);
            if is_ascii(token) {
                lemma_ascii_is_text(token);
            }
        }
    }
}

} // verus!
