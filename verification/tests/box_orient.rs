use cssparser::Parser;
use style_properties::css::stream_of_text;
use style_properties::box_orient::{get_initial_value, keyword_enum, parse, BoxOrientKeyword};
use style_properties::keyword::KeywordValue;
use style_properties::token::{Token, TokenStream};
use style_properties::value::{Expected, ParseError, ParserContext};

const ALL: [BoxOrientKeyword; 4] = [
    BoxOrientKeyword::InlineAxis,
    BoxOrientKeyword::BlockAxis,
    BoxOrientKeyword::Horizontal,
    BoxOrientKeyword::Vertical,
];

fn context() -> ParserContext {
    ParserContext {}
}

fn parse_text(text: &str) -> Result<BoxOrientKeyword, ParseError> {
    let mut input = Parser::new(text);
    parse(&context(), &mut input)
}

#[test]
fn initial_value_is_horizontal() {
    assert_eq!(get_initial_value(), BoxOrientKeyword::Horizontal);
}

#[test]
fn block_axis_parses_and_serializes() {
    assert_eq!(parse_text("block-axis"), Ok(BoxOrientKeyword::BlockAxis));
    assert_eq!(BoxOrientKeyword::BlockAxis.to_css(), "block-axis");
}

#[test]
fn parses_each_keyword() {
    assert_eq!(parse_text("inline-axis"), Ok(BoxOrientKeyword::InlineAxis));
    assert_eq!(parse_text("block-axis"), Ok(BoxOrientKeyword::BlockAxis));
    assert_eq!(parse_text("horizontal"), Ok(BoxOrientKeyword::Horizontal));
    assert_eq!(parse_text("vertical"), Ok(BoxOrientKeyword::Vertical));
}

#[test]
fn parse_ignores_letter_case() {
    assert_eq!(parse_text("Block-AXIS"), Ok(BoxOrientKeyword::BlockAxis));
    assert_eq!(parse_text("VERTICAL"), Ok(BoxOrientKeyword::Vertical));
    let mut input = Parser::new("hORIZONTAL");
    assert_eq!(BoxOrientKeyword::parse(&mut input), Ok(BoxOrientKeyword::Horizontal));
    for k in ALL {
        assert_eq!(parse_text(&k.to_css().to_uppercase()), parse_text(&k.to_css()));
    }
}

#[test]
fn parse_skips_whitespace_and_comments_and_reads_escapes() {
    assert_eq!(parse_text("  vertical"), Ok(BoxOrientKeyword::Vertical));
    assert_eq!(parse_text("/* axis */ inline-axis"), Ok(BoxOrientKeyword::InlineAxis));
    assert_eq!(parse_text("bl\\6f ck-axis"), Ok(BoxOrientKeyword::BlockAxis));
}

#[test]
fn serializes_each_keyword_as_registered() {
    assert_eq!(BoxOrientKeyword::InlineAxis.to_css(), "inline-axis");
    assert_eq!(BoxOrientKeyword::BlockAxis.to_css(), "block-axis");
    assert_eq!(BoxOrientKeyword::Horizontal.to_css(), "horizontal");
    assert_eq!(BoxOrientKeyword::Vertical.to_css(), "vertical");
}

#[test]
fn round_trips_through_text() {
    for keyword in ALL {
        assert_eq!(parse_text(&keyword.to_css()), Ok(keyword));
        let mut stream = stream_of_text(&keyword.to_css());
        assert_eq!(BoxOrientKeyword::parse_stream(&mut stream), Ok(keyword));
        assert_eq!(BoxOrientKeyword::from_ident(&keyword.to_css()), Some(keyword));
    }
}

#[test]
fn unknown_keyword_is_named() {
    assert_eq!(parse_text("diagonal"), Err(ParseError::UnknownKeyword("diagonal".to_string())));
    assert_eq!(parse_text("Horizontally"), Err(ParseError::UnknownKeyword("Horizontally".to_string())));
    assert_eq!(BoxOrientKeyword::from_ident("horizonta"), None);
    assert_eq!(BoxOrientKeyword::from_ident(""), None);
}

#[test]
fn other_tokens_are_unexpected() {
    for text in ["12", "2.5", "\"vertical\"", "#vertical", "vertical(", ",", "10px"] {
        assert_eq!(parse_text(text), Err(ParseError::UnexpectedToken(Expected::Keyword)), "{:?}", text);
    }
}

#[test]
fn empty_input_is_end_of_input() {
    assert_eq!(parse_text(""), Err(ParseError::EndOfInput(Expected::Keyword)));
    assert_eq!(parse_text("   /* nothing */ "), Err(ParseError::EndOfInput(Expected::Keyword)));
    let mut stream = TokenStream::new(Vec::new());
    assert_eq!(
        BoxOrientKeyword::parse_stream(&mut stream),
        Err(ParseError::EndOfInput(Expected::Keyword))
    );
}

#[test]
fn parse_consumes_exactly_one_token() {
    let mut input = Parser::new("vertical horizontal 3");
    assert_eq!(parse(&context(), &mut input), Ok(BoxOrientKeyword::Vertical));
    assert_eq!(parse(&context(), &mut input), Ok(BoxOrientKeyword::Horizontal));
    assert_eq!(parse(&context(), &mut input), Err(ParseError::UnexpectedToken(Expected::Keyword)));
    assert_eq!(parse(&context(), &mut input), Err(ParseError::EndOfInput(Expected::Keyword)));
    let mut stream = TokenStream::new(vec![
        Token::Ident("vertical".to_string()),
        Token::Ident("horizontal".to_string()),
    ]);
    assert_eq!(BoxOrientKeyword::parse_stream(&mut stream), Ok(BoxOrientKeyword::Vertical));
    assert!(!stream.is_exhausted());
    assert_eq!(BoxOrientKeyword::parse_stream(&mut stream), Ok(BoxOrientKeyword::Horizontal));
    assert!(stream.is_exhausted());
}

#[test]
fn keywords_are_numbered_in_declaration_order() {
    for (i, k) in ALL.iter().enumerate() {
        assert_eq!(k.variant(), i as u32);
        assert_eq!(BoxOrientKeyword::from_variant(i as u32), Some(*k));
    }
    assert_eq!(BoxOrientKeyword::from_variant(4), None);
}

#[test]
fn compiled_table_agrees_with_the_keywords() {
    let table = keyword_enum();
    assert_eq!(table.len(), 4);
    assert!(!table.is_inexhaustive());
    assert_eq!(table.initial_value(), KeywordValue::Variant(get_initial_value().variant()));
    for k in ALL {
        assert_eq!(table.parse_ident(&k.to_css()), Some(KeywordValue::Variant(k.variant())));
        assert_eq!(table.to_text(KeywordValue::Variant(k.variant())), Some(k.to_css()));
    }
    for text in ["Inline-Axis", "diagonal", "", "VERTICAL"] {
        assert_eq!(
            table.parse_ident(text),
            BoxOrientKeyword::from_ident(text).map(|k| KeywordValue::Variant(k.variant()))
        );
    }
}
