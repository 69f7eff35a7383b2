//! Reading tokens from the tokenizer of `cssparser`, and turning them
//! into tokens of this library.

use vstd::prelude::*;
use crate::number::{lex_decimal, parse_decimal, Decimal};
use crate::primitive::{decimal_from_integer, decimal_of_integer};
use crate::token::{models_of, rest, Token, TokenModel, TokenStream};

verus! {

/// `cssparser::Parser`, the tokenizer's cursor over a text. Nothing of
/// its inside is known here: it is handed to the functions that read
/// from it.
#[verifier::external_type_specification]
#[verifier::external_body]
pub struct ExParser<'i>(cssparser::Parser<'i>);

/// A raw token as a mathematical value.
pub enum RawModel {
    Ident(Seq<char>),
    Number { text: Seq<char>, integer: Option<i32> },
    Other,
}

/// A token as the tokenizer hands it over: an identifier with its value;
/// a number with its value written out in decimal and, where the number
/// was written without fraction or exponent, its value as an integer; or
/// any other token.
#[derive(Debug)]
pub enum RawToken {
    Ident(String),
    Number { text: String, integer: Option<i32> },
    Other,
}

impl View for RawToken {
    type V = RawModel;

    open spec fn view(&self) -> RawModel {
        match self {
            RawToken::Ident(s) => RawModel::Ident(s@),
            RawToken::Number { text, integer } => RawModel::Number { text: text@, integer: *integer },
            RawToken::Other => RawModel::Other,
        }
    }
}

/// A number that is not an integer keeps, or gets, a fraction: to one
/// that is written without, a zero is added behind the point. Nothing
/// comes back where the digits do not fit then.
pub open spec fn with_fraction(d: Decimal) -> Option<Decimal> {
    if d.scale > 0 {
        Some(d)
    } else if d.mantissa * 10 <= u64::MAX {
        Some(Decimal { negative: d.negative, mantissa: (d.mantissa * 10) as u64, scale: 1 })
    } else {
        None
    }
}

/// The token of this library that a raw token is. A number that has an
/// integer value is that integer. Any other number is read from its
/// text, and has at least one digit behind the point; where the text is
/// no decimal literal that fits, the token counts as another token.
pub open spec fn token_of_raw(raw: RawModel) -> TokenModel {
    match raw {
        RawModel::Ident(s) => TokenModel::Ident(s),
        RawModel::Number { text, integer: Some(i) } => TokenModel::Number(decimal_of_integer(i)),
        RawModel::Number { text, integer: None } => match lex_decimal(text) {
            Some(d) => match with_fraction(d) {
                Some(f) => TokenModel::Number(f),
                None => TokenModel::Other,
            },
            None => TokenModel::Other,
        },
        RawModel::Other => TokenModel::Other,
    }
}

/// Turns a raw token into a token of this library.
pub fn convert(raw: RawToken) -> (r: Token)
    ensures
        r@ == token_of_raw(raw@),
{
    match raw {
        RawToken::Ident(name) => Token::Ident(name),
        RawToken::Number { text, integer } => match integer {
            Some(i) => Token::Number(decimal_from_integer(i)),
            None => match parse_decimal(text.as_str()) {
                None => Token::Other,
                Some(d) => if d.scale > 0 {
                    Token::Number(d)
                } else if d.mantissa <= u64::MAX / 10 {
                    Token::Number(
                        Decimal { negative: d.negative, mantissa: d.mantissa * 10, scale: 1 },
                    )
                } else {
                    Token::Other
                },
            },
        },
        RawToken::Other => Token::Other,
    }
}

/// The tokens that a parser has yet to yield, in the order in which
/// `cssparser::Parser::next` yields them, each as the raw token that it
/// is handed over as.
pub uninterp spec fn pending(input: cssparser::Parser) -> Seq<RawModel>;

/// The tokens of this library that a parser has yet to yield.
pub open spec fn pending_tokens(input: cssparser::Parser) -> Seq<TokenModel> {
    Seq::new(pending(input).len(), |i: int| token_of_raw(pending(input)[i]))
}

/// `cssparser::Parser::next`: the next token that is neither whitespace
/// nor a comment, or nothing at the end of the input. An identifier is
/// handed over with its value, a number with its `f32` value as
/// `Display` writes it and with its integer value. What comes back is
/// the first of the tokens that the parser had yet to yield, and the
/// parser has the others yet to yield; at the end of the input it stays
/// at the end.
#[verifier::external_body]
fn next_raw(input: &mut cssparser::Parser) -> (r: Option<RawToken>)
    ensures
        pending(*final(input)) == rest(pending(*old(input))),
        match r {
            Some(raw) => pending(*old(input)).len() > 0 && raw@ == pending(*old(input))[0],
            None => pending(*old(input)).len() == 0,
        },
{
    match input.next() {
        Err(_) => None,
        Ok(cssparser::Token::Ident(value)) => Some(RawToken::Ident(value.as_ref().to_owned())),
        Ok(cssparser::Token::Number { value, int_value, .. }) => Some(
            RawToken::Number { text: format!("{}", value), integer: *int_value },
        ),
        Ok(_) => Some(RawToken::Other),
    }
}

/// The raw tokens that `cssparser` makes of a text, in order.
pub uninterp spec fn tokens_of_text(text: Seq<char>) -> Seq<RawModel>;

/// `cssparser::Parser::new`: a parser at the start of the text, which has
/// every token of the text yet to yield.
#[verifier::external_body]
fn new_parser<'i>(text: &'i str) -> (r: cssparser::Parser<'i>)
    ensures
        pending(r) == tokens_of_text(text@),
{
    cssparser::Parser::new(text)
}

/// The first token of a text, as a stream of its own: empty where the
/// text holds no token.
pub open spec fn first_token_of_text(text: Seq<char>) -> Seq<TokenModel> {
    first_only(Seq::new(tokens_of_text(text).len(), |i: int| token_of_raw(tokens_of_text(text)[i])))
}

/// The first of a sequence of tokens, as a stream of its own.
pub open spec fn first_only(tokens: Seq<TokenModel>) -> Seq<TokenModel> {
    if tokens.len() == 0 {
        tokens
    } else {
        seq![tokens[0]]
    }
}

/// Consumes the next token of the tokenizer's input and holds it ready
/// as a stream: one token, or none at the end of the input.
pub fn next_as_stream(input: &mut cssparser::Parser) -> (r: TokenStream)
    ensures
        r@ == first_only(pending_tokens(*old(input))),
        pending(*final(input)) == rest(pending(*old(input))),
{
    let mut tokens: Vec<Token> = Vec::new();
    match next_raw(input) {
        None => {},
        Some(raw) => {
            tokens.push(convert(raw));
        },
    }
    assert(models_of(tokens@) =~= first_only(pending_tokens(*old(input))));
    TokenStream::new(tokens)
}

/// Tokenizes a text and holds its first token ready as a stream.
pub fn stream_of_text(text: &str) -> (r: TokenStream)
    ensures
        r@ == first_token_of_text(text@),
{
    let mut input = new_parser(text);
    assert(pending_tokens(input) =~= Seq::new(
        tokens_of_text(text@).len(),
        |i: int| token_of_raw(tokens_of_text(text@)[i]),
    ));
    next_as_stream(&mut input)
}

} // verus!
