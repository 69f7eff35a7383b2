use cssparser::Parser;
use style_properties::css::{convert, next_as_stream, RawToken};
use style_properties::descriptor::{AnimationType, Products, PropertyDescriptor, ValueKind};
use style_properties::backend::BackendBinding;
use style_properties::longhand::Longhand;
use style_properties::number::Decimal;
use style_properties::registry::{Declaration, DeclarationError, Registry};
use style_properties::token::Token;
use style_properties::value::{Expected, ParseError, ParserContext, SpecifiedValue};

fn dec(negative: bool, mantissa: u64, scale: u8) -> Decimal {
    Decimal { negative, mantissa, scale }
}

fn number(text: &str, integer: Option<i32>) -> RawToken {
    RawToken::Number { text: text.to_string(), integer }
}

fn context() -> ParserContext {
    ParserContext {}
}

fn predefined(name: &str, alias: &str, primitive: &str, default: &str) -> PropertyDescriptor {
    PropertyDescriptor {
        name: name.to_string(),
        aliases: vec![alias.to_string()],
        products: Products { native: false, bound: true },
        value_kind: ValueKind::Predefined {
            primitive: primitive.to_string(),
            parser: Some("parse_non_negative".to_string()),
            default: Some(default.to_string()),
        },
        animation_type: AnimationType::NotAnimated,
        inherited: false,
        binding: Some(BackendBinding { field_name: "mField".to_string(), prefix: None, inexhaustive: false }),
        spec: String::new(),
    }
}

fn box_flex() -> PropertyDescriptor {
    predefined("-moz-box-flex", "-webkit-box-flex", "Number", "0.0")
}

fn box_ordinal_group() -> PropertyDescriptor {
    predefined("-moz-box-ordinal-group", "-webkit-box-ordinal-group", "Integer", "0")
}

#[test]
fn identifier_is_kept_as_it_is() {
    assert!(matches!(convert(RawToken::Ident("Block-Axis".to_string())), Token::Ident(s) if s == "Block-Axis"));
    assert!(matches!(convert(RawToken::Ident(String::new())), Token::Ident(s) if s.is_empty()));
    assert!(matches!(convert(RawToken::Other), Token::Other));
}

#[test]
fn integer_value_wins_over_the_text() {
    assert!(matches!(convert(number("5", Some(5))), Token::Number(d) if d == dec(false, 5, 0)));
    assert!(matches!(convert(number("-12", Some(-12))), Token::Number(d) if d == dec(true, 12, 0)));
    assert!(matches!(convert(number("0", Some(0))), Token::Number(d) if d == dec(false, 0, 0)));
    assert!(matches!(convert(number("nonsense", Some(7))), Token::Number(d) if d == dec(false, 7, 0)));
    assert!(matches!(
        convert(number("-2147483648", Some(i32::MIN))),
        Token::Number(d) if d == dec(true, 2147483648, 0)
    ));
}

#[test]
fn number_without_integer_value_has_a_fraction() {
    assert!(matches!(convert(number("2.5", None)), Token::Number(d) if d == dec(false, 25, 1)));
    assert!(matches!(convert(number("5", None)), Token::Number(d) if d == dec(false, 50, 1)));
    assert!(matches!(convert(number("0", None)), Token::Number(d) if d == dec(false, 0, 1)));
    assert!(matches!(convert(number("-0", None)), Token::Number(d) if d == dec(true, 0, 1)));
    assert!(matches!(convert(number("-0.125", None)), Token::Number(d) if d == dec(true, 125, 3)));
    assert!(matches!(
        convert(number("1844674407370955161", None)),
        Token::Number(d) if d == dec(false, 18446744073709551610, 1)
    ));
}

#[test]
fn number_that_cannot_be_held_counts_as_another_token() {
    assert!(matches!(convert(number("inf", None)), Token::Other));
    assert!(matches!(convert(number("NaN", None)), Token::Other));
    assert!(matches!(convert(number("1844674407370955162", None)), Token::Other));
    assert!(matches!(convert(number("340282350000000000000000000000000000000", None)), Token::Other));
    assert!(matches!(convert(number("", None)), Token::Other));
}

#[test]
fn stream_holds_the_next_token_of_the_input() {
    let mut input = Parser::new("  vertical 2.5 7 ; ");
    let mut s = next_as_stream(&mut input);
    assert!(matches!(s.next(), Some(Token::Ident(t)) if t == "vertical"));
    assert!(s.is_exhausted());
    let mut s = next_as_stream(&mut input);
    assert!(matches!(s.next(), Some(Token::Number(d)) if d == dec(false, 25, 1)));
    let mut s = next_as_stream(&mut input);
    assert!(matches!(s.next(), Some(Token::Number(d)) if d == dec(false, 7, 0)));
    let mut s = next_as_stream(&mut input);
    assert!(matches!(s.next(), Some(Token::Other)));
    let mut s = next_as_stream(&mut input);
    assert!(s.is_exhausted());
    assert!(s.next().is_none());
}

#[test]
fn numbers_of_the_tokenizer_keep_their_value() {
    let cases = [
        ("0.0", dec(false, 0, 1)),
        ("2.5", dec(false, 25, 1)),
        ("2.50", dec(false, 25, 1)),
        ("1e1", dec(false, 100, 1)),
        ("25e-1", dec(false, 25, 1)),
        ("-0.5", dec(true, 5, 1)),
        ("+3", dec(false, 3, 0)),
        ("3.0", dec(false, 30, 1)),
        (".75", dec(false, 75, 2)),
    ];
    for (text, expected) in cases {
        let mut input = Parser::new(text);
        let mut s = next_as_stream(&mut input);
        assert!(matches!(s.next(), Some(Token::Number(d)) if d == expected), "{:?}", text);
    }
}

#[test]
fn non_negative_number_from_the_tokenizer() {
    let unit = Longhand::compile(box_flex()).unwrap();
    let mut input = Parser::new("-1");
    assert_eq!(unit.parse_css(&context(), &mut input), Err(ParseError::RangeViolation));
    let mut input = Parser::new("2.5");
    let r = unit.parse_css(&context(), &mut input);
    assert_eq!(r, Ok(SpecifiedValue::Number(dec(false, 25, 1))));
    match r {
        Ok(SpecifiedValue::Number(d)) => assert_eq!(d.mantissa as f32 / 10f32.powi(d.scale as i32), 2.5),
        _ => unreachable!(),
    }
    let mut input = Parser::new("0.0");
    assert_eq!(unit.parse_css(&context(), &mut input), Ok(unit.initial_value()));
    let mut input = Parser::new("auto");
    assert_eq!(unit.parse_css(&context(), &mut input), Err(ParseError::UnexpectedToken(Expected::Number)));
    let mut input = Parser::new("");
    assert_eq!(unit.parse_css(&context(), &mut input), Err(ParseError::EndOfInput(Expected::Number)));
}

#[test]
fn integer_from_the_tokenizer() {
    let unit = Longhand::compile(box_ordinal_group()).unwrap();
    let mut input = Parser::new("3 3.0 -1 0");
    assert_eq!(unit.parse_css(&context(), &mut input), Ok(SpecifiedValue::Integer(3)));
    assert_eq!(unit.parse_css(&context(), &mut input), Err(ParseError::UnexpectedToken(Expected::Integer)));
    assert_eq!(unit.parse_css(&context(), &mut input), Err(ParseError::RangeViolation));
    assert_eq!(unit.parse_css(&context(), &mut input), Ok(unit.initial_value()));
}

#[test]
fn declarations_from_the_tokenizer() {
    let r = Registry::build(vec![box_flex(), box_ordinal_group()]).unwrap();
    let mut input = Parser::new("1.5 4");
    assert_eq!(
        r.parse_css("-webkit-box-flex", &context(), &mut input),
        Ok(Declaration { property: 0, value: SpecifiedValue::Number(dec(false, 15, 1)) })
    );
    // An unknown property consumes nothing.
    assert_eq!(r.parse_css("-moz-box-flexy", &context(), &mut input), Err(DeclarationError::UnknownProperty));
    assert_eq!(
        r.parse_css("-moz-box-ordinal-group", &context(), &mut input),
        Ok(Declaration { property: 1, value: SpecifiedValue::Integer(4) })
    );
    assert_eq!(
        r.parse_css("-moz-box-ordinal-group", &context(), &mut input),
        Err(DeclarationError::InvalidValue(ParseError::EndOfInput(Expected::Integer)))
    );
}
