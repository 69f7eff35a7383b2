//! Predefined primitive types and their named parsers: numbers and
//! integers, unrestricted or limited to values that are not negative.

use vstd::prelude::*;
use crate::number::Decimal;
use crate::text::text_eq;
use crate::css::{first_token_of_text, stream_of_text};
use crate::token::{rest, Token, TokenModel, TokenStream};
use crate::value::{agrees, Expected, ParseError, ParseFailure, SpecifiedValue};

verus! {

/// The primitive type of a predefined property.
#[derive(Clone, Copy, Debug, PartialEq, Eq, Structural)]
pub enum PrimitiveType {
    /// A decimal number.
    Number,
    /// A whole number in the range of `i32`.
    Integer,
}

/// The parser of a predefined property.
#[derive(Clone, Copy, Debug, PartialEq, Eq, Structural)]
pub enum PrimitiveParser {
    /// Admits every value of the type.
    Any,
    /// Admits only values that are zero or above.
    NonNegative,
}

/// The parser that a name denotes.
pub open spec fn parser_named(name: Seq<char>) -> Option<PrimitiveParser> {
    if name == "parse"@ {
        Some(PrimitiveParser::Any)
    } else if name == "parse_non_negative"@ {
        Some(PrimitiveParser::NonNegative)
    } else {
        None
    }
}

/// The type that a name denotes.
pub open spec fn type_named(name: Seq<char>) -> Option<PrimitiveType> {
    if name == "Number"@ {
        Some(PrimitiveType::Number)
    } else if name == "Integer"@ {
        Some(PrimitiveType::Integer)
    } else {
        None
    }
}

/// The shape that a parser of the type asks for.
pub open spec fn expected_of(ty: PrimitiveType) -> Expected {
    match ty {
        PrimitiveType::Number => Expected::Number,
        PrimitiveType::Integer => Expected::Integer,
    }
}

/// The whole number that a decimal without fraction denotes.
pub open spec fn integer_of(d: Decimal) -> int {
    if d.negative {
        -(d.mantissa as int)
    } else {
        d.mantissa as int
    }
}

/// The decimal that stands for an integer.
pub open spec fn decimal_of_integer(v: i32) -> Decimal {
    Decimal {
        negative: v < 0,
        mantissa: (if v < 0 {
            -(v as int)
        } else {
            v as int
        }) as u64,
        scale: 0,
    }
}

/// The decimal that stands for an integer.
pub fn decimal_from_integer(v: i32) -> (r: Decimal)
    ensures
        r == decimal_of_integer(v),
        integer_of(r) == v,
{
    let wide: i64 = v as i64;
    if v < 0 {
        Decimal { negative: true, mantissa: (-wide) as u64, scale: 0 }
    } else {
        Decimal { negative: false, mantissa: wide as u64, scale: 0 }
    }
}

/// What one token parses to. A number needs a number token; an integer
/// needs a number token that was written without a fraction and lies in
/// the range of `i32`. The non-negative parser refuses values below zero.
pub open spec fn parse_primitive_token(
    ty: PrimitiveType,
    parser: PrimitiveParser,
    t: TokenModel,
) -> Result<SpecifiedValue, ParseFailure> {
    match t {
        TokenModel::Number(d) => match ty {
            PrimitiveType::Number => if parser == PrimitiveParser::NonNegative
                && !d.is_non_negative() {
                Err(ParseFailure::RangeViolation)
            } else {
                Ok(SpecifiedValue::Number(d))
            },
            PrimitiveType::Integer => if d.scale != 0 {
                Err(ParseFailure::UnexpectedToken(Expected::Integer))
            } else if integer_of(d) < i32::MIN || integer_of(d) > i32::MAX {
                Err(ParseFailure::RangeViolation)
            } else if parser == PrimitiveParser::NonNegative && integer_of(d) < 0 {
                Err(ParseFailure::RangeViolation)
            } else {
                Ok(SpecifiedValue::Integer(integer_of(d) as i32))
            },
        },
        _ => Err(ParseFailure::UnexpectedToken(expected_of(ty))),
    }
}

/// What a stream parses to: what its first token parses to.
pub open spec fn parse_primitive_tokens(
    ty: PrimitiveType,
    parser: PrimitiveParser,
    input: Seq<TokenModel>,
) -> Result<SpecifiedValue, ParseFailure> {
    if input.len() == 0 {
        Err(ParseFailure::EndOfInput(expected_of(ty)))
    } else {
        parse_primitive_token(ty, parser, input[0])
    }
}

impl PrimitiveParser {
    /// Looks a parser up by its name.
    pub fn named(name: &str) -> (r: Option<PrimitiveParser>)
        ensures
            r == parser_named(name@),
    {
        if text_eq(name, "parse") {
            Some(PrimitiveParser::Any)
        } else if text_eq(name, "parse_non_negative") {
            Some(PrimitiveParser::NonNegative)
        } else {
            None
        }
    }
}

impl PrimitiveType {
    /// Looks a type up by its name.
    pub fn named(name: &str) -> (r: Option<PrimitiveType>)
        ensures
            r == type_named(name@),
    {
        if text_eq(name, "Number") {
            Some(PrimitiveType::Number)
        } else if text_eq(name, "Integer") {
            Some(PrimitiveType::Integer)
        } else {
            None
        }
    }

    /// The shape that a parser of this type asks for.
    pub fn expected(self) -> (r: Expected)
        ensures
            r == expected_of(self),
    {
        match self {
            PrimitiveType::Number => Expected::Number,
            PrimitiveType::Integer => Expected::Integer,
        }
    }
}

/// Parses one number token as a value of the type, under the parser.
pub fn parse_number_token(ty: PrimitiveType, parser: PrimitiveParser, d: Decimal) -> (r: Result<
    SpecifiedValue,
    ParseError,
>)
    ensures
        agrees(r, parse_primitive_token(ty, parser, TokenModel::Number(d))),
{
    let non_negative_only: bool = match parser {
        PrimitiveParser::NonNegative => true,
        PrimitiveParser::Any => false,
    };
    match ty {
        PrimitiveType::Number => {
            if non_negative_only && !d.non_negative() {
                Err(ParseError::RangeViolation)
            } else {
                Ok(SpecifiedValue::Number(d))
            }
        },
        PrimitiveType::Integer => {
            if d.scale != 0 {
                return Err(ParseError::UnexpectedToken(Expected::Integer));
            }
            if d.negative {
                // The smallest `i32` is one further from zero than the largest.
                if d.mantissa > 2147483648 {
                    return Err(ParseError::RangeViolation);
                }
                if non_negative_only && d.mantissa != 0 {
                    return Err(ParseError::RangeViolation);
                }
                let v: i64 = -(d.mantissa as i64);
                Ok(SpecifiedValue::Integer(v as i32))
            } else {
                if d.mantissa > 2147483647 {
                    return Err(ParseError::RangeViolation);
                }
                Ok(SpecifiedValue::Integer(d.mantissa as i32))
            }
        },
    }
}

/// Parses the value of a predefined property: consumes one token, which
/// must be a number that the type and the parser admit.
pub fn parse_primitive(ty: PrimitiveType, parser: PrimitiveParser, input: &mut TokenStream) -> (r:
    Result<SpecifiedValue, ParseError>)
    ensures
        agrees(r, parse_primitive_tokens(ty, parser, old(input)@)),
        final(input)@ == rest(old(input)@),
{
    match input.next() {
        None => Err(ParseError::EndOfInput(ty.expected())),
        Some(Token::Number(d)) => parse_number_token(ty, parser, d),
        Some(_) => Err(ParseError::UnexpectedToken(ty.expected())),
    }
}

/// Parses a literal, such as the default of a property: the text is
/// tokenized, and its first token is parsed.
pub fn parse_literal(ty: PrimitiveType, parser: PrimitiveParser, text: &str) -> (r: Result<
    SpecifiedValue,
    ParseError,
>)
    ensures
        agrees(r, literal_value(ty, parser, text@)),
{
    let mut input: TokenStream = stream_of_text(text);
    parse_primitive(ty, parser, &mut input)
}

/// The value that a literal denotes under a type and a parser.
pub open spec fn literal_value(ty: PrimitiveType, parser: PrimitiveParser, text: Seq<char>) -> Result<
    SpecifiedValue,
    ParseFailure,
> {
    parse_primitive_tokens(ty, parser, first_token_of_text(text))
}

} // verus!
