use crate::lexer::tokens::token_of;
use crate::lexer::tokens::Token;
use vstd::prelude::*;
use vstd::string::StringSliceAdditionalSpecFns;

verus! {

/// The tokens of a source text: its command bytes in order, every other byte
/// dropped.
pub open spec fn lex(source: Seq<u8>) -> Seq<Token>
    decreases source.len(),
{
    if source.len() == 0 {
        Seq::empty()
    } else {
        match token_of(source[0]) {
            Some(token) => seq![token] + lex(source.skip(1)),
            None => lex(source.skip(1)),
        }
    }
}

/// The source text that writes `tokens`: their symbols in order.
pub open spec fn symbols(tokens: Seq<Token>) -> Seq<u8> {
    Seq::new(tokens.len(), |i: int| tokens[i].spec_symbol())
}

/// Lexing the symbols of a token sequence gives the sequence back.
pub proof fn lemma_lex_symbols(tokens: Seq<Token>)
    ensures
        lex(symbols(tokens)) == tokens,
    decreases tokens.len(),
{
    if tokens.len() == 0 {
        assert(lex(symbols(tokens)) =~= tokens);
    } else {
        let source = symbols(tokens);
        lemma_lex_symbols(tokens.skip(1));
        assert(source.skip(1) =~= symbols(tokens.skip(1)));
        assert(token_of(source[0]) == Some(tokens[0]));
        assert(seq![tokens[0]] + tokens.skip(1) =~= tokens);
    }
}

/// No source has more tokens than bytes.
pub proof fn lemma_lex_length(source: Seq<u8>)
    ensures
        lex(source).len() <= source.len(),
    decreases source.len(),
{
    if source.len() > 0 {
        lemma_lex_length(source.skip(1));
    }
}

/// A cursor over source text that hands out its tokens.
pub struct Lexer<'a> {
    source: &'a [u8],
    position: usize,
}

impl<'a> Lexer<'a> {
    /// The bytes of the source text.
    pub closed spec fn source(&self) -> Seq<u8> {
        self.source@
    }

    /// How many source bytes have been read.
    pub closed spec fn position(&self) -> int {
        self.position as int
    }

    /// The bytes that are still to be read.
    pub open spec fn remaining(&self) -> Seq<u8> {
        self.source().skip(self.position())
    }

    /// The cursor never passes the end of the source.
    pub closed spec fn well_formed(&self) -> bool {
        self.position <= self.source@.len()
    }

    /// A lexer at the start of `source`.
    pub fn new(source: &'a str) -> (lexer: Self)
        ensures
            lexer.well_formed(),
            lexer.source() == source.spec_bytes(),
            lexer.position() == 0,
    {
        Lexer { source: source.as_bytes(), position: 0 }
    }

    /// Hands out every token that is left, in source order.
    pub fn tokenize(&mut self) -> (tokens: Vec<Token>)
        requires
            old(self).well_formed(),
        ensures
            final(self).well_formed(),
            final(self).source() == old(self).source(),
            final(self).position() == old(self).source().len(),
            tokens@ == lex(old(self).remaining()),
    {
        let mut tokens: Vec<Token> = Vec::new();
        let ghost all = lex(self.remaining());
        loop
            invariant
                self.well_formed(),
                self.source() == old(self).source(),
                tokens@ + lex(self.remaining()) == all,
            ensures
                self.well_formed(),
                self.source() == old(self).source(),
                self.position() == self.source().len(),
                tokens@ == all,
            decreases self.source().len() - self.position(),
        {
            match self.new_token() {
                Some(token) => {
                    tokens.push(token);
                    assert(tokens@ + lex(self.remaining()) =~= all);
                },
                None => {
                    assert(tokens@ + Seq::<Token>::empty() =~= tokens@);
                    break ;
                },
            }
        }
        tokens
    }

    /// Reads up to and including the next command byte and returns its token,
    /// or `None` once the source holds no further command.
    fn new_token(&mut self) -> (token: Option<Token>)
        requires
            old(self).well_formed(),
        ensures
            final(self).well_formed(),
            final(self).source() == old(self).source(),
            match token {
                Some(t) => {
                    &&& old(self).position() < final(self).position()
                    &&& lex(old(self).remaining()) == seq![t] + lex(final(self).remaining())
                },
                None => {
                    &&& final(self).position() == old(self).source().len()
                    &&& lex(old(self).remaining()) == Seq::<Token>::empty()
                },
            },
    {
        while self.position < self.source.len()
            invariant
                self.source@ == old(self).source@,
                old(self).position <= self.position <= self.source@.len(),
                lex(self.source@.skip(self.position as int)) == lex(old(self).remaining()),
            decreases self.source@.len() - self.position,
        {
            let current_byte = self.source[self.position];
            proof {
                let at = self.position as int;
                assert(self.source@.skip(at).skip(1) =~= self.source@.skip(at + 1));
                assert(self.source@.skip(at)[0] == current_byte);
            }
            self.position += 1;
            match Token::from_byte(current_byte) {
                Some(token) => {
                    return Some(token);
                },
                None => {},
            }
        }
        None
    }
}

} // verus!
