//! Tokens of style text, and the stream that a parser consumes them from.

use vstd::prelude::*;
use crate::number::Decimal;

verus! {

/// A token as a mathematical value.
pub enum TokenModel {
    Ident(Seq<char>),
    Number(Decimal),
    Other,
}

/// One lexical token.
#[derive(Debug)]
pub enum Token {
    /// An identifier, by its value.
    Ident(String),
    /// A number.
    Number(Decimal),
    /// Any other token.
    Other,
}

impl View for Token {
    type V = TokenModel;

    open spec fn view(&self) -> TokenModel {
        match self {
            Token::Ident(s) => TokenModel::Ident(s@),
            Token::Number(d) => TokenModel::Number(*d),
            Token::Other => TokenModel::Other,
        }
    }
}

impl Token {
    /// A copy of the token.
    pub fn duplicate(&self) -> (r: Token)
        ensures
            r@ == self@,
    {
        match self {
            Token::Ident(s) => Token::Ident(s.clone()),
            Token::Number(d) => Token::Number(*d),
            Token::Other => Token::Other,
        }
    }
}

/// The tokens of a list as mathematical values.
pub open spec fn models_of(tokens: Seq<Token>) -> Seq<TokenModel> {
    Seq::new(tokens.len(), |i: int| tokens[i]@)
}

/// What is left of a sequence once its first element, if there is one, is taken.
pub open spec fn rest<A>(input: Seq<A>) -> Seq<A> {
    if input.len() == 0 {
        input
    } else {
        input.skip(1)
    }
}

/// The tokens of one property value, with a cursor. Its view is the
/// sequence of tokens that are still to be consumed.
#[derive(Debug)]
pub struct TokenStream {
    tokens: Vec<Token>,
    position: usize,
}

impl View for TokenStream {
    type V = Seq<TokenModel>;

    closed spec fn view(&self) -> Seq<TokenModel> {
        models_of(self.tokens@).skip(self.position as int)
    }
}

impl TokenStream {
    #[verifier::type_invariant]
    spec fn cursor_in_range(self) -> bool {
        self.position <= self.tokens.len()
    }

    /// A stream over the given tokens, with nothing consumed yet.
    pub fn new(tokens: Vec<Token>) -> (r: TokenStream)
        ensures
            r@ == models_of(tokens@),
    {
        assert(models_of(tokens@).skip(0) =~= models_of(tokens@));
        TokenStream { tokens, position: 0 }
    }

    /// Consumes the next token. At the end of the input nothing is consumed
    /// and nothing is returned.
    pub fn next(&mut self) -> (r: Option<Token>)
        ensures
            final(self)@ == rest(old(self)@),
            old(self)@.len() == 0 ==> r is None,
            old(self)@.len() > 0 ==> r is Some && r.unwrap()@ == old(self)@[0],
    {
        proof {
            use_type_invariant(&*self);
        }
        if self.position >= self.tokens.len() {
            return None;
        }
        let t: Token = self.tokens[self.position].duplicate();
        let ghost before = models_of(self.tokens@).skip(self.position as int);
        self.position = self.position + 1;
        assert(models_of(self.tokens@).skip(self.position as int) =~= before.skip(1));
        Some(t)
    }

    /// Whether every token has been consumed.
    pub fn is_exhausted(&self) -> (r: bool)
        ensures
            r == (self@.len() == 0),
    {
        proof {
            use_type_invariant(self);
        }
        self.position >= self.tokens.len()
    }
}

} // verus!
