use crate::error::{Failure, ParseError};
use crate::grammar::{
    close_bracket, comma, false_word, null_word, open_bracket, parse_document, parse_elements,
    parse_value, true_word, Parsed, ParsedElements,
};
use crate::lexer::Lexer;
use crate::text::is_word;
use crate::tokens::{lemma_tokens_step, texts, Token};
use crate::value::{Tree, Value};
use vstd::prelude::*;
use vstd::string::*;

verus! {

/// The words of the grammar, as string literals and as bytes.
proof fn lemma_words()
    ensures
        "null".spec_bytes() == null_word(),
        "true".spec_bytes() == true_word(),
        "false".spec_bytes() == false_word(),
        "[".spec_bytes() == open_bracket(),
        "]".spec_bytes() == close_bracket(),
        ",".spec_bytes() == comma(),
{
    reveal_strlit("null");
    reveal_strlit("true");
    reveal_strlit("false");
    reveal_strlit("[");
    reveal_strlit("]");
    reveal_strlit(",");
    is_ascii_spec_bytes("null");
    is_ascii_spec_bytes("true");
    is_ascii_spec_bytes("false");
    is_ascii_spec_bytes("[");
    is_ascii_spec_bytes("]");
    is_ascii_spec_bytes(",");
}

/// Taking the texts of a stream and dropping its first tokens can be done in
/// either order.
proof fn lemma_texts_skip(ts: Seq<Token>, n: int)
    requires
        0 <= n <= ts.len(),
    ensures
        texts(ts).len() == ts.len(),
        texts(ts.skip(n)) == texts(ts).skip(n),
        forall|i: int| 0 <= i < ts.len() ==> (#[trigger] texts(ts)[i]) == ts[i].text,
{
}

/// The elements read so far, `done` and the `used` tokens that spell them,
/// put in front of what reading the rest gives.
spec fn prepend(done: Seq<Tree>, used: nat, rest: ParsedElements) -> ParsedElements {
    match rest {
        Ok((others, m)) => Ok((done + others, used + m)),
        Err(failure) => Err(failure),
    }
}

/// The array made of the elements read behind an opening bracket.
spec fn enclose(elements: ParsedElements) -> Parsed {
    match elements {
        Ok((elements, n)) => Ok((Tree::Array(elements), n + 1)),
        Err(failure) => Err(failure),
    }
}

/// Reads one value from the tokens that `lexer` has pending and leaves the
/// lexer behind the last token of the value.
pub fn parse_(lexer: &mut Lexer) -> (result: Result<Value, ParseError>)
    ensures
        final(lexer).input() == old(lexer).input(),
        old(lexer).cursor() <= final(lexer).cursor() <= old(lexer).input().len(),
        match result {
            Ok(value) => {
                &&& parse_value(texts(old(lexer).pending())) matches Ok((tree, n))
                &&& value@ == tree
                &&& 0 < n <= old(lexer).pending().len()
                &&& final(lexer).pending() == old(lexer).pending().skip(n as int)
                &&& old(lexer).cursor() < final(lexer).cursor()
            },
            Err(error) => {
                &&& parse_value(texts(old(lexer).pending())) matches Err(failure)
                &&& error@ == failure.message()
            },
        },
    decreases old(lexer).input().len() - old(lexer).cursor(),
{
    let ghost ts = lexer.pending();
    let token = lexer.token();
    proof {
        lemma_words();
    }

    if token.len() == 0 {
        Err(ParseError::unexpected_end())
    } else if is_word(token, "null") {
        Ok(Value::Null)
    } else if is_word(token, "true") {
        Ok(Value::Boolean(true))
    } else if is_word(token, "false") {
        Ok(Value::Boolean(false))
    } else if is_word(token, "[") {
        let mut arr: Vec<Value> = Vec::new();
        let ghost inner = lexer.pending();
        let ghost mut done: Seq<Tree> = Seq::empty();
        let ghost mut used: nat = 0;
        proof {
            lemma_texts_skip(ts, 1);
        }
        loop
            invariant_except_break
                parse_elements(texts(inner)) == prepend(
                    done,
                    used,
                    parse_elements(texts(lexer.pending())),
                ),
            invariant
                ts == old(lexer).pending(),
                ts.len() > 0,
                inner == ts.skip(1),
                parse_value(texts(ts)) == enclose(parse_elements(texts(inner))),
                lexer.input() == old(lexer).input(),
                old(lexer).cursor() < lexer.cursor() <= lexer.input().len(),
                used <= inner.len(),
                lexer.pending() == inner.skip(used as int),
                arr@.len() == done.len(),
                forall|i: int| 0 <= i < arr@.len() ==> (#[trigger] arr@[i])@ == done[i],
            ensures
                lexer.input() == old(lexer).input(),
                old(lexer).cursor() < lexer.cursor() <= lexer.input().len(),
                used <= inner.len(),
                lexer.pending() == inner.skip(used as int),
                arr@.len() == done.len(),
                forall|i: int| 0 <= i < arr@.len() ==> (#[trigger] arr@[i])@ == done[i],
                parse_elements(texts(inner)) == Ok::<(Seq<Tree>, nat), Failure>((done, used)),
            decreases lexer.input().len() - lexer.cursor(),
        {
            let ghost here = lexer.pending();
            let val = match parse_(lexer) {
                Ok(val) => val,
                Err(error) => {
                    return Err(error);
                },
            };
            let ghost n = parse_value(texts(here))->Ok_0.1;
            arr.push(val);

            let next = lexer.token();
            proof {
                lemma_words();
                if n < here.len() {
                    assert(here.skip(n as int).skip(1) =~= here.skip(n as int + 1));
                    assert(inner.skip(used as int).skip(n as int + 1) =~= inner.skip(
                        used as int + n as int + 1,
                    ));
                    lemma_texts_skip(here, n as int + 1);
                }
            }
            if is_word(next, "]") {
                proof {
                    assert(done + seq![val@] =~= done.push(val@));
                    done = done.push(val@);
                    used = used + n + 1;
                }
                break ;
            } else if is_word(next, ",") {
                proof {
                    let rest = parse_elements(texts(lexer.pending()));
                    assert(prepend(done, used, prepend(seq![val@], n + 1, rest)) == prepend(
                        done.push(val@),
                        used + n + 1,
                        rest,
                    )) by {
                        if let Ok((others, m)) = rest {
                            assert(done + (seq![val@] + others) =~= done.push(val@) + others);
                        }
                    }
                    done = done.push(val@);
                    used = used + n + 1;
                }
                continue ;
            } else if next.len() == 0 {
                return Err(ParseError::unexpected_end());
            } else {
                return Err(ParseError::expected_separator_or_close(next));
            }
        }

        proof {
            assert(Value::Array(arr)@->Array_0 =~= done);
        }
        Ok(Value::Array(arr))
    } else {
        Err(ParseError::unknown_token(token))
    }
}

/// Whether `result` is what a caller gets for a document that means
/// `outcome`: the value itself, or an error with the message of the failure.
pub open spec fn reports(result: Result<Value, ParseError>, outcome: Result<Tree, Failure>) -> bool {
    match result {
        Ok(value) => outcome == Ok::<Tree, Failure>(value@),
        Err(error) => {
            &&& outcome matches Err(failure)
            &&& error@ == failure.message()
        },
    }
}

/// Parses a document: one value, with nothing but whitespace around it.
///
/// The result is `Ok` exactly when the tokens of `s` spell one value of the
/// grammar and no token is left over, and the value returned is that value.
/// Otherwise the error carries the message of the first thing that is wrong.
pub fn parse(s: &str) -> (result: Result<Value, ParseError>)
    ensures
        reports(result, parse_document(s.spec_bytes())),
{
    let mut lexer = Lexer::new(s.as_bytes());
    let value = match parse_(&mut lexer) {
        Ok(value) => value,
        Err(error) => {
            return Err(error);
        },
    };
    let ghost behind = lexer.cursor();

    lexer.skip_whitespace();
    proof {
        lemma_tokens_step(lexer.input(), behind);
    }

    if !lexer.eof() {
        Err(ParseError::trailing_content(lexer.rest()))
    } else {
        Ok(value)
    }
}

/// Parsing is a function of the text. Whatever two calls of `parse` on one
/// text return, both are values with the same tree, or both are errors with
/// the same message.
pub proof fn lemma_parse_is_deterministic(
    s: Seq<u8>,
    first: Result<Value, ParseError>,
    second: Result<Value, ParseError>,
)
    requires
        reports(first, parse_document(s)),
        reports(second, parse_document(s)),
    ensures
        match (first, second) {
            (Ok(a), Ok(b)) => a@ == b@,
            (Err(a), Err(b)) => a@ == b@,
            _ => false,
        },
{
}

} // verus!
