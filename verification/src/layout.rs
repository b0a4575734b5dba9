use crate::error::Failure;
use crate::grammar::parse_document;
use crate::tokens::{
    is_identifier_char, is_identifier_start, is_punctuation, is_whitespace, lemma_run_end,
    lemma_run_end_unique, lemma_token_end, lemma_whitespace_end_settled, run_end, texts,
    token_end, tokens, tokens_from, whitespace_end, Token,
};
use crate::value::Tree;
use vstd::prelude::*;

verus! {

/// A run that stops inside `a` stops at the same place when more input
/// follows `a`.
proof fn lemma_run_end_inside(a: Seq<u8>, b: Seq<u8>, from: int, accepts: spec_fn(u8) -> bool)
    requires
        0 <= from <= a.len(),
        run_end(a, from, accepts) < a.len(),
    ensures
        run_end(a + b, from, accepts) == run_end(a, from, accepts),
{
    let end = run_end(a, from, accepts);
    lemma_run_end(a, from, accepts);
    assert forall|i: int| from <= i < end implies accepts(#[trigger] (a + b)[i]) by {}
    lemma_run_end_unique(a + b, from, end, accepts);
}

/// A run that reaches the end of `a` goes on into what follows `a`.
proof fn lemma_run_end_across(a: Seq<u8>, b: Seq<u8>, from: int, accepts: spec_fn(u8) -> bool)
    requires
        0 <= from <= a.len(),
        run_end(a, from, accepts) == a.len(),
    ensures
        run_end(a + b, from, accepts) == a.len() + run_end(b, 0, accepts),
{
    let more = run_end(b, 0, accepts);
    let end = a.len() + more;
    lemma_run_end(a, from, accepts);
    lemma_run_end(b, 0, accepts);
    assert forall|i: int| from <= i < end implies accepts(#[trigger] (a + b)[i]) by {}
    lemma_run_end_unique(a + b, from, end, accepts);
}

/// A run in `b` is the same run when `a` stands before `b`, moved by the
/// length of `a`.
proof fn lemma_run_end_moved(a: Seq<u8>, b: Seq<u8>, from: int, accepts: spec_fn(u8) -> bool)
    requires
        0 <= from <= b.len(),
    ensures
        run_end(a + b, a.len() + from, accepts) == a.len() + run_end(b, from, accepts),
{
    let end = run_end(b, from, accepts);
    lemma_run_end(b, from, accepts);
    assert forall|i: int| a.len() + from <= i < a.len() + end implies accepts(
        #[trigger] (a + b)[i],
    ) by {}
    lemma_run_end_unique(a + b, a.len() + from, a.len() + end, accepts);
}

/// The texts of a stream that is put together from two.
proof fn lemma_texts_add(first: Seq<Token>, second: Seq<Token>)
    ensures
        texts(first + second) == texts(first) + texts(second),
{
}

/// The tokens of `b` have the same texts when `a` stands before `b`.
proof fn lemma_tokens_moved(a: Seq<u8>, b: Seq<u8>, from: int)
    requires
        0 <= from <= b.len(),
    ensures
        texts(tokens_from(a + b, a.len() + from)) == texts(tokens_from(b, from)),
    decreases b.len() - from,
{
    let s = a + b;
    let start = whitespace_end(b, from);
    lemma_run_end(b, from, |c: u8| is_whitespace(c));
    lemma_run_end_moved(a, b, from, |c: u8| is_whitespace(c));
    if start < b.len() {
        let end = token_end(b, start);
        lemma_token_end(b, start);
        lemma_run_end_moved(a, b, start, |c: u8| is_identifier_char(c));
        assert(s.subrange(a.len() + start, a.len() + end) =~= b.subrange(start, end));
        lemma_tokens_moved(a, b, end);
        let moved = seq![Token { offset: a.len() + start, text: b.subrange(start, end) }];
        let head = seq![Token { offset: start, text: b.subrange(start, end) }];
        lemma_texts_add(moved, tokens_from(s, a.len() + end));
        lemma_texts_add(head, tokens_from(b, end));
        assert(texts(moved) =~= texts(head));
    }
}

/// Whether putting `b` behind `a` could make one identifier of the end of `a`
/// and the start of `b`.
pub open spec fn joins(a: Seq<u8>, b: Seq<u8>) -> bool {
    a.len() > 0 && b.len() > 0 && is_identifier_char(a.last()) && is_identifier_char(b[0])
}

/// The tokens of `a` from `from` on, then those of `b`, are the tokens of
/// `a + b` from `from` on.
proof fn lemma_tokens_add_from(a: Seq<u8>, b: Seq<u8>, from: int)
    requires
        0 <= from <= a.len(),
        !joins(a, b),
    ensures
        texts(tokens_from(a + b, from)) == texts(tokens_from(a, from)) + texts(tokens_from(b, 0)),
    decreases a.len() - from,
{
    let s = a + b;
    let start = whitespace_end(a, from);
    lemma_run_end(a, from, |c: u8| is_whitespace(c));
    if start < a.len() {
        let end = token_end(a, start);
        lemma_run_end_inside(a, b, from, |c: u8| is_whitespace(c));
        if !is_punctuation(a[start]) && is_identifier_start(a[start]) {
            lemma_run_end(a, start, |c: u8| is_identifier_char(c));
            if end < a.len() {
                lemma_run_end_inside(a, b, start, |c: u8| is_identifier_char(c));
            } else {
                lemma_run_end_across(a, b, start, |c: u8| is_identifier_char(c));
            }
        }
        assert(s.subrange(start, end) =~= a.subrange(start, end));
        lemma_tokens_add_from(a, b, end);
        let head = seq![Token { offset: start, text: a.subrange(start, end) }];
        lemma_texts_add(head, tokens_from(a, end));
        assert(texts(head) + (texts(tokens_from(a, end)) + texts(tokens_from(b, 0))) =~= (texts(
            head,
        ) + texts(tokens_from(a, end))) + texts(tokens_from(b, 0)));
    } else {
        let skipped = whitespace_end(b, 0);
        lemma_run_end_across(a, b, from, |c: u8| is_whitespace(c));
        lemma_whitespace_end_settled(s, from);
        lemma_whitespace_end_settled(b, 0);
        lemma_tokens_moved(a, b, skipped);
        assert(texts(tokens_from(a, from)) + texts(tokens_from(b, 0)) =~= texts(
            tokens_from(b, 0),
        ));
    }
}

/// Whether `w` is made of whitespace alone.
pub open spec fn is_blank(w: Seq<u8>) -> bool {
    forall|i: int| 0 <= i < w.len() ==> is_whitespace(#[trigger] w[i])
}

/// Whitespace holds no token.
pub proof fn lemma_blank_has_no_tokens(w: Seq<u8>)
    requires
        is_blank(w),
    ensures
        tokens(w).len() == 0,
{
    lemma_run_end_unique(w, 0, w.len() as int, |c: u8| is_whitespace(c));
}

/// Two pieces of input put together have the tokens of the first, then those
/// of the second, unless an identifier would run from one into the other.
pub proof fn lemma_tokens_add(a: Seq<u8>, b: Seq<u8>)
    requires
        !joins(a, b),
    ensures
        texts(tokens(a + b)) == texts(tokens(a)) + texts(tokens(b)),
{
    lemma_tokens_add_from(a, b, 0);
}

/// Whitespace may be put in, or taken out, wherever it does not cut an
/// identifier in two or make one of two: the tokens stay what they are.
pub proof fn lemma_whitespace_between_tokens(a: Seq<u8>, w: Seq<u8>, b: Seq<u8>)
    requires
        is_blank(w),
        w.len() > 0 || !joins(a, b),
    ensures
        texts(tokens(a + w + b)) == texts(tokens(a)) + texts(tokens(b)),
        !joins(a, b) ==> texts(tokens(a + w + b)) == texts(tokens(a + b)),
{
    if w.len() > 0 {
        lemma_tokens_add(a + w, b);
        lemma_tokens_add(a, w);
        lemma_blank_has_no_tokens(w);
    }
    if !joins(a, b) {
        lemma_tokens_add(a, b);
    }
}

/// Whether two outcomes are the same but for the text quoted for trailing
/// content, which is cut from the input as it stands.
pub open spec fn agree(x: Result<Tree, Failure>, y: Result<Tree, Failure>) -> bool {
    match x {
        Err(Failure::TrailingContent(_)) => y matches Err(Failure::TrailingContent(_)),
        _ => x == y,
    }
}

/// Two documents with the same tokens mean the same: both are accepted with
/// one value, or both are rejected for one reason.
pub proof fn lemma_layout_does_not_matter(x: Seq<u8>, y: Seq<u8>)
    requires
        texts(tokens(x)) == texts(tokens(y)),
    ensures
        agree(parse_document(x), parse_document(y)),
{
}

/// Whitespace between tokens does not change what a document means.
pub proof fn lemma_whitespace_does_not_matter(a: Seq<u8>, w: Seq<u8>, b: Seq<u8>)
    requires
        is_blank(w),
        !joins(a, b),
    ensures
        agree(parse_document(a + w + b), parse_document(a + b)),
{
    lemma_whitespace_between_tokens(a, w, b);
    lemma_layout_does_not_matter(a + w + b, a + b);
}

} // verus!
