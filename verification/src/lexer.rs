//! A cursor over source text that hands out one token at a time.

use crate::text::{
    byte_len, lemma_boundary_of_suffix, lemma_boundary_step, lemma_str_bytes_valid, on_boundary,
    scalar_width, str_slice,
};
use core::marker::PhantomData;
use core::ops::Range;
use vstd::prelude::*;
use vstd::string::StringSliceAdditionalSpecFns;

verus! {

/// A kind of token that can be recognised at the start of a text.
pub trait LexerToken<'source>: Sized {
    /// The token that `input` starts with, and the number of bytes it takes; `None` where
    /// `input` starts with no token.
    spec fn lex_spec(input: Seq<u8>) -> Option<(Self, int)>;

    /// Try to match a token at the beginning of the input.
    /// Returns the token and the number of bytes consumed: at least one, and whole
    /// characters only.
    fn lex(input: &'source str) -> (r: Option<(Self, usize)>)
        ensures
            r matches Some((token, n)) ==> Self::lex_spec(input.spec_bytes()) == Some(
                (token, n as int),
            ) && 0 < n && on_boundary(input.spec_bytes(), n as int),
            r is None ==> Self::lex_spec(input.spec_bytes()) is None,
    ;
}

/// A lexer over `source`: the offset of the next token, and the span of the last one.
pub struct Lexer<'source, Token> {
    source: &'source str,
    pos: usize,
    current_span: Range<usize>,
    _phantom: PhantomData<Token>,
}

impl<'source, Token> Lexer<'source, Token> {
    #[verifier::type_invariant]
    closed spec fn inv(self) -> bool {
        &&& self.current_span.start <= self.current_span.end <= self.pos
        &&& on_boundary(self.source.spec_bytes(), self.current_span.start as int)
        &&& on_boundary(self.source.spec_bytes(), self.current_span.end as int)
        &&& on_boundary(self.source.spec_bytes(), self.pos as int)
    }

    /// The bytes of the text that is being lexed.
    pub closed spec fn bytes(self) -> Seq<u8> {
        self.source.spec_bytes()
    }

    /// The offset at which the next token starts.
    pub closed spec fn position(self) -> int {
        self.pos as int
    }

    /// The span of the token that was handed out last.
    pub closed spec fn spec_span(self) -> Range<usize> {
        self.current_span
    }

    pub fn new(source: &'source str) -> (r: Self)
        ensures
            r.bytes() == source.spec_bytes(),
            r.position() == 0,
            r.spec_span() == (0usize..0usize),
    {
        proof {
            lemma_str_bytes_valid(source);
        }
        Self { source, pos: 0, current_span: 0..0, _phantom: PhantomData }
    }

    /// The span of the last token. Its ends are character boundaries of the text, and it
    /// lies before the position.
    pub fn span(&self) -> (r: Range<usize>)
        ensures
            r == self.spec_span(),
            r.start <= r.end <= self.position() <= self.bytes().len(),
            on_boundary(self.bytes(), r.start as int),
            on_boundary(self.bytes(), r.end as int),
            on_boundary(self.bytes(), self.position()),
    {
        proof {
            use_type_invariant(self);
        }
        Range { start: self.current_span.start, end: self.current_span.end }
    }

    /// The text of the last token.
    pub fn slice(&self) -> (r: &'source str)
        ensures
            r.spec_bytes() == self.bytes().subrange(
                self.spec_span().start as int,
                self.spec_span().end as int,
            ),
    {
        proof {
            use_type_invariant(self);
        }
        str_slice(self.source, self.current_span.start, self.current_span.end)
    }

    /// The text that has not been lexed yet.
    pub fn remainder(&self) -> (r: &'source str)
        ensures
            r.spec_bytes() == self.bytes().skip(self.position()),
    {
        proof {
            use_type_invariant(self);
        }
        str_slice(self.source, self.pos, byte_len(self.source))
    }
}

impl<'source, Token: LexerToken<'source>> Lexer<'source, Token> {
    /// The text that the next token is matched against.
    pub open spec fn rest(self) -> Seq<u8> {
        self.bytes().skip(self.position())
    }

    /// The number of bytes that the next call of `next` consumes: the length of the token
    /// that the rest starts with or, where it starts with none, of its first character.
    pub open spec fn step_len(self) -> int {
        match Token::lex_spec(self.rest()) {
            Some((_, n)) => n,
            None => scalar_width(self.rest()[0]),
        }
    }

    /// Hands out the next token, or an error for one character that starts no token, and
    /// moves past it. At the end of the text it gives `None` and changes nothing.
    pub fn next(&mut self) -> (r: Option<Result<Token, ()>>)
        ensures
            final(self).bytes() == old(self).bytes(),
            old(self).rest().len() == 0 ==> {
                &&& r is None
                &&& final(self).position() == old(self).position()
                &&& final(self).spec_span() == old(self).spec_span()
            },
            old(self).rest().len() > 0 ==> {
                &&& r is Some
                &&& match Token::lex_spec(old(self).rest()) {
                    Some((token, _)) => r->0 == Ok::<Token, ()>(token),
                    None => r->0 == Err::<Token, ()>(()),
                }
                &&& 0 < old(self).step_len() <= old(self).rest().len()
                &&& final(self).position() == old(self).position() + old(self).step_len()
                &&& final(self).spec_span().start == old(self).position()
                &&& final(self).spec_span().end == final(self).position()
            },
    {
        proof {
            use_type_invariant(&*self);
            lemma_str_bytes_valid(self.source);
        }
        let len: usize = byte_len(self.source);
        if self.pos >= len {
            return None;
        }
        let start: usize = self.pos;
        let remainder = str_slice(self.source, self.pos, len);
        if let Some((token, n)) = Token::lex(remainder) {
            proof {
                lemma_boundary_of_suffix(self.source.spec_bytes(), start as int, n as int);
            }
            self.pos = start + n;
            self.current_span = start..self.pos;
            Some(Ok(token))
        } else {
            let first_byte = self.source.as_bytes()[start];
            let char_len: usize = if first_byte < 0x80 {
                1
            } else if first_byte < 0xE0 {
                2
            } else if first_byte < 0xF0 {
                3
            } else {
                4
            };
            proof {
                lemma_boundary_step(self.source.spec_bytes(), start as int);
            }
            self.pos = start + char_len;
            self.current_span = start..self.pos;
            Some(Err(()))
        }
    }
}

} // verus!
