use crate::error::Failure;
use crate::tokens::{texts, tokens};
use crate::value::Tree;
use vstd::prelude::*;

verus! {

/// The token `null`.
pub open spec fn null_word() -> Seq<u8> {
    seq!['n' as u8, 'u' as u8, 'l' as u8, 'l' as u8]
}

/// The token `true`.
pub open spec fn true_word() -> Seq<u8> {
    seq!['t' as u8, 'r' as u8, 'u' as u8, 'e' as u8]
}

/// The token `false`.
pub open spec fn false_word() -> Seq<u8> {
    seq!['f' as u8, 'a' as u8, 'l' as u8, 's' as u8, 'e' as u8]
}

/// The token `[`.
pub open spec fn open_bracket() -> Seq<u8> {
    seq!['[' as u8]
}

/// The token `]`.
pub open spec fn close_bracket() -> Seq<u8> {
    seq![']' as u8]
}

/// The token `,`.
pub open spec fn comma() -> Seq<u8> {
    seq![',' as u8]
}

/// A value read from the front of a token stream, with the number of tokens
/// that spell it.
pub type Parsed = Result<(Tree, nat), Failure>;

/// The elements of an array read from the front of a token stream, with the
/// number of tokens up to and including the closing bracket.
pub type ParsedElements = Result<(Seq<Tree>, nat), Failure>;

/// Reads one value from the front of `ts`:
///
/// ```text
/// value := "null" | "true" | "false" | "[" value ("," value)* "]"
/// ```
pub open spec fn parse_value(ts: Seq<Seq<u8>>) -> Parsed
    decreases ts.len(), 0nat,
{
    if ts.len() == 0 {
        Err(Failure::UnexpectedEndOfDocument)
    } else if ts[0] == null_word() {
        Ok((Tree::Null, 1nat))
    } else if ts[0] == true_word() {
        Ok((Tree::Boolean(true), 1nat))
    } else if ts[0] == false_word() {
        Ok((Tree::Boolean(false), 1nat))
    } else if ts[0] == open_bracket() {
        match parse_elements(ts.skip(1)) {
            Ok((elements, n)) => Ok((Tree::Array(elements), n + 1)),
            Err(failure) => Err(failure),
        }
    } else {
        Err(Failure::UnknownToken(ts[0]))
    }
}

/// Reads what follows an opening bracket: one value, then either `]`, or `,`
/// and the same again. An array therefore has at least one element, and no
/// comma stands before its closing bracket.
pub open spec fn parse_elements(ts: Seq<Seq<u8>>) -> ParsedElements
    decreases ts.len(), 1nat,
{
    match parse_value(ts) {
        Err(failure) => Err(failure),
        Ok((first, n)) => {
            if n >= ts.len() {
                Err(Failure::UnexpectedEndOfDocument)
            } else if ts[n as int] == close_bracket() {
                Ok((seq![first], n + 1))
            } else if ts[n as int] == comma() {
                match parse_elements(ts.skip(n as int + 1)) {
                    Ok((others, m)) => Ok((seq![first] + others, n + 1 + m)),
                    Err(failure) => Err(failure),
                }
            } else {
                Err(Failure::ExpectedSeparatorOrClose(ts[n as int]))
            }
        },
    }
}

/// What a whole document means: the one value that its tokens spell, with
/// nothing behind it.
pub open spec fn parse_document(s: Seq<u8>) -> Result<Tree, Failure> {
    let ts = tokens(s);
    match parse_value(texts(ts)) {
        Err(failure) => Err(failure),
        Ok((tree, n)) => {
            if n < ts.len() {
                Err(Failure::TrailingContent(s.subrange(ts[n as int].offset, s.len() as int)))
            } else {
                Ok(tree)
            }
        },
    }
}

/// Whether `tree` can be written down: every array in it, at any depth, has
/// at least one element.
pub open spec fn writable(tree: Tree) -> bool
    decreases tree,
{
    match tree {
        Tree::Null => true,
        Tree::Boolean(_) => true,
        Tree::Array(elements) => all_writable(elements),
    }
}

/// Whether `elements` can stand between brackets: there is one at least, and
/// each can be written down.
pub open spec fn all_writable(elements: Seq<Tree>) -> bool
    decreases elements,
{
    elements.len() > 0 && forall|i: int|
        0 <= i < elements.len() ==> writable(#[trigger] elements[i])
}

/// The tokens that spell `tree`.
pub open spec fn spell(tree: Tree) -> Seq<Seq<u8>>
    decreases tree,
{
    match tree {
        Tree::Null => seq![null_word()],
        Tree::Boolean(true) => seq![true_word()],
        Tree::Boolean(false) => seq![false_word()],
        Tree::Array(elements) => seq![open_bracket()] + spell_elements(elements),
    }
}

/// The tokens that spell `elements` behind an opening bracket: the elements
/// with commas between them, then the closing bracket.
pub open spec fn spell_elements(elements: Seq<Tree>) -> Seq<Seq<u8>>
    decreases elements,
{
    if elements.len() <= 1 {
        if elements.len() == 1 {
            spell(elements[0]) + seq![close_bracket()]
        } else {
            seq![close_bracket()]
        }
    } else {
        spell(elements[0]) + seq![comma()] + spell_elements(elements.skip(1))
    }
}

/// No word of the grammar is another.
proof fn lemma_words_differ()
    ensures
        null_word() != true_word(),
        null_word() != false_word(),
        null_word() != open_bracket(),
        true_word() != false_word(),
        true_word() != open_bracket(),
        false_word() != open_bracket(),
        close_bracket() != comma(),
        close_bracket() != null_word(),
        close_bracket() != true_word(),
        close_bracket() != false_word(),
        close_bracket() != open_bracket(),
{
    assert(close_bracket()[0] != open_bracket()[0]);
}

/// Whatever `parse_value` accepts is spelled by the tokens it used, and can
/// be written down.
pub proof fn lemma_parse_value_sound(ts: Seq<Seq<u8>>)
    ensures
        parse_value(ts) matches Ok((tree, n)) ==> {
            &&& writable(tree)
            &&& 0 < n <= ts.len()
            &&& ts.take(n as int) == spell(tree)
        },
    decreases ts.len(), 0nat,
{
    if ts.len() > 0 && ts[0] != null_word() && ts[0] != true_word() && ts[0] != false_word()
        && ts[0] == open_bracket() {
        lemma_parse_elements_sound(ts.skip(1));
    }
}

/// Whatever `parse_elements` accepts is spelled by the tokens it used, and
/// can stand between brackets.
pub proof fn lemma_parse_elements_sound(ts: Seq<Seq<u8>>)
    ensures
        parse_elements(ts) matches Ok((elements, n)) ==> {
            &&& all_writable(elements)
            &&& 0 < n <= ts.len()
            &&& ts.take(n as int) == spell_elements(elements)
        },
    decreases ts.len(), 1nat,
{
    lemma_parse_value_sound(ts);
    if let Ok((first, n)) = parse_value(ts) {
        if n < ts.len() && ts[n as int] != close_bracket() && ts[n as int] == comma() {
            let behind = ts.skip(n as int + 1);
            lemma_parse_elements_sound(behind);
            if let Ok((others, m)) = parse_elements(behind) {
                let all = seq![first] + others;
                assert(all.skip(1) =~= others);
                assert(all_writable(all));
            }
        }
    }
}

/// The token that a failure quotes.
pub open spec fn quoted_token(failure: Failure) -> Option<Seq<u8>> {
    match failure {
        Failure::UnknownToken(token) => Some(token),
        Failure::ExpectedSeparatorOrClose(token) => Some(token),
        _ => None,
    }
}

/// Reading a value fails for the end of the tokens or for one of the tokens,
/// which the failure quotes, and never for trailing content: that is found
/// only behind a whole document.
pub proof fn lemma_parse_value_failure(ts: Seq<Seq<u8>>)
    ensures
        parse_value(ts) matches Err(failure) ==> {
            &&& !(failure is TrailingContent)
            &&& quoted_token(failure) matches Some(token) ==> ts.contains(token)
        },
    decreases ts.len(), 0nat,
{
    if ts.len() > 0 && ts[0] != null_word() && ts[0] != true_word() && ts[0] != false_word()
        && ts[0] == open_bracket() {
        lemma_parse_elements_failure(ts.skip(1));
    }
}

/// Reading the elements of an array fails in the same ways.
pub proof fn lemma_parse_elements_failure(ts: Seq<Seq<u8>>)
    ensures
        parse_elements(ts) matches Err(failure) ==> {
            &&& !(failure is TrailingContent)
            &&& quoted_token(failure) matches Some(token) ==> ts.contains(token)
        },
    decreases ts.len(), 1nat,
{
    lemma_parse_value_failure(ts);
    if let Ok((first, n)) = parse_value(ts) {
        if n < ts.len() && ts[n as int] != close_bracket() && ts[n as int] == comma() {
            lemma_parse_elements_failure(ts.skip(n as int + 1));
        }
    }
}

/// `parse_value` reads back any value that can be written down, whatever
/// tokens follow its spelling.
pub proof fn lemma_parse_value_complete(tree: Tree, rest: Seq<Seq<u8>>)
    requires
        writable(tree),
    ensures
        parse_value(spell(tree) + rest) == Ok::<(Tree, nat), Failure>((tree, spell(tree).len())),
    decreases tree,
{
    let ts = spell(tree) + rest;
    match tree {
        Tree::Null => {},
        Tree::Boolean(b) => {
            assert(ts[0] == if b {
                true_word()
            } else {
                false_word()
            });
        },
        Tree::Array(elements) => {
            assert(ts.skip(1) =~= spell_elements(elements) + rest);
            lemma_parse_elements_complete(elements, rest);
        },
    }
}

/// `parse_elements` reads back any elements that can stand between brackets,
/// whatever tokens follow their spelling.
pub proof fn lemma_parse_elements_complete(elements: Seq<Tree>, rest: Seq<Seq<u8>>)
    requires
        all_writable(elements),
    ensures
        parse_elements(spell_elements(elements) + rest) == Ok::<(Seq<Tree>, nat), Failure>(
            (elements, spell_elements(elements).len()),
        ),
    decreases elements,
{
    lemma_words_differ();
    let first = elements[0];
    let n = spell(first).len();
    let ts = spell_elements(elements) + rest;
    if elements.len() == 1 {
        let behind = seq![close_bracket()] + rest;
        assert(ts =~= spell(first) + behind);
        lemma_parse_value_complete(first, behind);
        assert(elements =~= seq![first]);
    } else {
        let others = elements.skip(1);
        let behind = seq![comma()] + (spell_elements(others) + rest);
        assert(ts =~= spell(first) + behind);
        lemma_parse_value_complete(first, behind);
        assert(ts.skip(n as int + 1) =~= spell_elements(others) + rest);
        assert(all_writable(others));
        lemma_parse_elements_complete(others, rest);
        assert(elements =~= seq![first] + others);
    }
}

/// The documents that are accepted are those whose tokens spell a value that
/// can be written down, and that value is what they mean.
pub proof fn lemma_accepted_documents(s: Seq<u8>, tree: Tree)
    ensures
        parse_document(s) == Ok::<Tree, Failure>(tree) <==> writable(tree) && texts(tokens(s))
            == spell(tree),
{
    let ts = texts(tokens(s));
    lemma_parse_value_sound(ts);
    if parse_document(s) == Ok::<Tree, Failure>(tree) {
        let n = parse_value(ts)->Ok_0.1;
        assert(ts.take(n as int) =~= ts);
    }
    if writable(tree) && ts == spell(tree) {
        lemma_parse_value_complete(tree, Seq::empty());
    }
}

} // verus!
