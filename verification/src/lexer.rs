use crate::tokens::{
    after_token, is_identifier_char, is_identifier_start, is_whitespace, lemma_run_end_unique,
    next_token, tokens_from, whitespace_end, Token,
};
use vstd::prelude::*;

verus! {

/// A cursor into a byte buffer that hands out one token per call. The cursor
/// never moves back and never passes the end of the buffer.
pub struct Lexer<'a> {
    s: &'a [u8],
    pos: usize,
}

impl<'a> Lexer<'a> {
    #[verifier::type_invariant]
    spec fn cursor_in_bounds(&self) -> bool {
        self.pos <= self.s@.len()
    }

    /// The whole buffer, which never changes.
    pub closed spec fn input(&self) -> Seq<u8> {
        self.s@
    }

    /// How many bytes have been consumed.
    pub closed spec fn cursor(&self) -> int {
        self.pos as int
    }

    /// The tokens that are still to come.
    pub open spec fn pending(&self) -> Seq<Token> {
        tokens_from(self.input(), self.cursor())
    }

    /// A lexer at the start of `s`.
    pub fn new(s: &'a [u8]) -> (lexer: Lexer<'a>)
        ensures
            lexer.input() == s@,
            lexer.cursor() == 0,
    {
        Lexer { s: s, pos: 0 }
    }

    /// Whether every byte has been consumed.
    pub fn eof(&self) -> (at_end: bool)
        ensures
            at_end == (self.cursor() >= self.input().len()),
            0 <= self.cursor() <= self.input().len(),
    {
        proof {
            use_type_invariant(self);
        }
        self.pos >= self.s.len()
    }

    /// Moves the cursor one byte on; at the end of the buffer it stays.
    pub fn advance(&mut self)
        ensures
            final(self).input() == old(self).input(),
            final(self).cursor() == if old(self).cursor() < old(self).input().len() {
                old(self).cursor() + 1
            } else {
                old(self).cursor()
            },
    {
        if !self.eof() {
            proof {
                vstd::slice::axiom_spec_len(self.s);
            }
            self.pos += 1;
        }
    }

    /// The byte under the cursor, which stays where it is.
    pub fn peek_byte(&self) -> (next: Option<u8>)
        ensures
            next == if self.cursor() < self.input().len() {
                Some(self.input()[self.cursor()])
            } else {
                None
            },
    {
        if self.eof() {
            None
        } else {
            Some(self.s[self.pos])
        }
    }

    /// The byte under the cursor, which moves past it.
    pub fn take_byte(&mut self) -> (next: Option<u8>)
        ensures
            final(self).input() == old(self).input(),
            old(self).cursor() < old(self).input().len() ==> next == Some(
                old(self).input()[old(self).cursor()],
            ) && final(self).cursor() == old(self).cursor() + 1,
            old(self).cursor() >= old(self).input().len() ==> next.is_none() && final(self).cursor()
                == old(self).cursor(),
    {
        if self.eof() {
            None
        } else {
            let res = self.s[self.pos];
            self.advance();
            Some(res)
        }
    }

    /// The byte under the cursor if `pred` accepts it. The cursor stays where
    /// it is either way.
    pub fn take<T: FnOnce(u8) -> bool>(&mut self, pred: T) -> (next: Option<u8>)
        requires
            old(self).cursor() < old(self).input().len() ==> call_requires(
                pred,
                (old(self).input()[old(self).cursor()],),
            ),
        ensures
            final(self).input() == old(self).input(),
            final(self).cursor() == old(self).cursor(),
            next matches Some(b) ==> {
                &&& old(self).cursor() < old(self).input().len()
                &&& b == old(self).input()[old(self).cursor()]
                &&& call_ensures(pred, (b,), true)
            },
            next.is_none() ==> old(self).cursor() >= old(self).input().len() || call_ensures(
                pred,
                (old(self).input()[old(self).cursor()],),
                false,
            ),
    {
        if let Some(ch) = self.peek_byte() {
            if pred(ch) {
                return Some(ch);
            }
        }
        return None;
    }

    /// Consumes the longest run of bytes that `pred` accepts and returns it.
    pub fn take_while<T: Fn(u8) -> bool>(&mut self, pred: T) -> (run: &'a [u8])
        requires
            forall|i: int|
                old(self).cursor() <= i < old(self).input().len() ==> call_requires(
                    pred,
                    (#[trigger] old(self).input()[i],),
                ),
        ensures
            final(self).input() == old(self).input(),
            old(self).cursor() <= final(self).cursor() <= old(self).input().len(),
            run@ == old(self).input().subrange(old(self).cursor(), final(self).cursor()),
            forall|i: int|
                old(self).cursor() <= i < final(self).cursor() ==> call_ensures(
                    pred,
                    (#[trigger] old(self).input()[i],),
                    true,
                ),
            final(self).cursor() < old(self).input().len() ==> call_ensures(
                pred,
                (old(self).input()[final(self).cursor()],),
                false,
            ),
    {
        let start_pos = self.pos;
        proof {
            use_type_invariant(&*self);
        }
        loop
            invariant
                self.input() == old(self).input(),
                start_pos == old(self).cursor(),
                start_pos <= self.cursor() <= self.input().len(),
                forall|i: int|
                    start_pos <= i < self.input().len() ==> call_requires(
                        pred,
                        (#[trigger] self.input()[i],),
                    ),
                forall|i: int|
                    start_pos <= i < self.cursor() ==> call_ensures(
                        pred,
                        (#[trigger] self.input()[i],),
                        true,
                    ),
            ensures
                self.input() == old(self).input(),
                start_pos <= self.cursor() <= self.input().len(),
                forall|i: int|
                    start_pos <= i < self.cursor() ==> call_ensures(
                        pred,
                        (#[trigger] self.input()[i],),
                        true,
                    ),
                self.cursor() < self.input().len() ==> call_ensures(
                    pred,
                    (self.input()[self.cursor()],),
                    false,
                ),
            decreases self.input().len() - self.cursor(),
        {
            match self.peek_byte() {
                Some(ch) => {
                    if pred(ch) {
                        self.advance();
                    } else {
                        break ;
                    }
                },
                None => {
                    break ;
                },
            }
        }
        &self.s[start_pos..self.pos]
    }

    /// Moves the cursor to the next byte that is no whitespace, or to the end.
    pub fn skip_whitespace(&mut self)
        ensures
            final(self).input() == old(self).input(),
            final(self).cursor() == whitespace_end(old(self).input(), old(self).cursor()),
            old(self).cursor() <= final(self).cursor() <= old(self).input().len(),
            final(self).pending() == old(self).pending(),
    {
        let is_space = |ch: u8| -> (space: bool)
            ensures
                space == is_whitespace(ch),
            { ch == ' ' as u8 || ch == '\t' as u8 || ch == '\r' as u8 || ch == '\n' as u8 };
        self.take_while(is_space);
        proof {
            lemma_run_end_unique(
                old(self).input(),
                old(self).cursor(),
                self.cursor(),
                |b: u8| is_whitespace(b),
            );
        }
    }

    /// Whether `b` may begin an identifier.
    pub fn is_identifier_start(b: u8) -> (start: bool)
        ensures
            start == is_identifier_start(b),
    {
        (b >= 'a' as u8 && b <= 'z' as u8) || (b >= 'A' as u8 && b <= 'Z' as u8) || b == '_' as u8
    }

    /// Whether `b` may continue an identifier.
    pub fn is_identifier_char(b: u8) -> (part: bool)
        ensures
            part == is_identifier_char(b),
    {
        Self::is_identifier_start(b) || (b >= '0' as u8 && b <= '9' as u8)
    }

    /// Consumes the byte under the cursor and returns it as a slice.
    fn take_one(&mut self) -> (one: &'a [u8])
        requires
            old(self).cursor() < old(self).input().len(),
        ensures
            final(self).input() == old(self).input(),
            final(self).cursor() == old(self).cursor() + 1,
            one@ == old(self).input().subrange(old(self).cursor(), old(self).cursor() + 1),
    {
        let start_pos = self.pos;
        self.advance();
        &self.s[start_pos..self.pos]
    }

    /// Reads the next token and the whitespace around it. The token is empty
    /// exactly when nothing but whitespace was left; the cursor then stands at
    /// the end of the buffer.
    pub fn token(&mut self) -> (token: &'a [u8])
        ensures
            final(self).input() == old(self).input(),
            old(self).cursor() <= final(self).cursor() <= old(self).input().len(),
            token@ == next_token(old(self).input(), old(self).cursor()),
            final(self).cursor() == after_token(old(self).input(), old(self).cursor()),
            old(self).pending().len() == 0 ==> token@.len() == 0 && final(self).pending().len()
                == 0,
            old(self).pending().len() > 0 ==> {
                &&& token@ == old(self).pending()[0].text
                &&& token@.len() > 0
                &&& old(self).cursor() < final(self).cursor()
                &&& final(self).pending() == old(self).pending().skip(1)
            },
    {
        proof {
            use_type_invariant(&*self);
        }
        self.skip_whitespace();

        if self.eof() {
            return &self.s[self.pos..self.pos];
        }
        let byte = self.s[self.pos];
        let ghost start = self.cursor();

        let result = if byte == '[' as u8 || byte == ']' as u8 || byte == ',' as u8 || byte
            == ':' as u8 || byte == '{' as u8 || byte == '}' as u8 {
            self.take_one()
        } else if Self::is_identifier_start(byte) {
            let run = self.take_while(Self::is_identifier_char);
            proof {
                lemma_run_end_unique(
                    self.input(),
                    start,
                    self.cursor(),
                    |b: u8| is_identifier_char(b),
                );
            }
            run
        } else {
            self.take_one()
        };

        self.skip_whitespace();

        result
    }

    /// Everything from the cursor to the end of the buffer.
    pub fn rest(&self) -> (rest: &'a [u8])
        ensures
            rest@ == self.input().subrange(self.cursor(), self.input().len() as int),
    {
        proof {
            use_type_invariant(self);
        }
        &self.s[self.pos..self.s.len()]
    }
}

} // verus!
