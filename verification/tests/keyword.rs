use style_properties::css::stream_of_text;
use style_properties::keyword::{KeywordEntry, KeywordEnum, KeywordError, KeywordValue};
use style_properties::token::{Token, TokenStream};
use style_properties::value::{Expected, ParseError};

fn entry(token: &str, variant: u32) -> KeywordEntry {
    KeywordEntry { token: token.to_string(), variant }
}

fn box_align(inexhaustive: bool) -> KeywordEnum {
    KeywordEnum::compile(
        vec![
            entry("stretch", 10),
            entry("start", 11),
            entry("center", 12),
            entry("baseline", 13),
            entry("end", 14),
        ],
        10,
        inexhaustive,
    )
    .unwrap()
}

#[test]
fn compile_keeps_rows_in_declaration_order() {
    let k = box_align(false);
    assert_eq!(k.len(), 5);
    assert_eq!(k.entry(0).token, "stretch");
    assert_eq!(k.entry(0).variant, 10);
    assert_eq!(k.entry(4).token, "end");
    assert_eq!(k.entry(4).variant, 14);
    assert!(!k.is_inexhaustive());
    assert!(box_align(true).is_inexhaustive());
}

#[test]
fn parse_ident_finds_each_variant() {
    let k = box_align(false);
    assert_eq!(k.parse_ident("stretch"), Some(KeywordValue::Variant(10)));
    assert_eq!(k.parse_ident("start"), Some(KeywordValue::Variant(11)));
    assert_eq!(k.parse_ident("center"), Some(KeywordValue::Variant(12)));
    assert_eq!(k.parse_ident("baseline"), Some(KeywordValue::Variant(13)));
    assert_eq!(k.parse_ident("end"), Some(KeywordValue::Variant(14)));
    assert_eq!(k.parse_ident("middle"), None);
    assert_eq!(k.parse_ident(""), None);
    assert_eq!(k.parse_ident("star"), None);
    assert_eq!(k.parse_ident("startt"), None);
}

#[test]
fn parse_ident_ignores_ascii_case_only() {
    let k = box_align(false);
    assert_eq!(k.parse_ident("BASELINE"), Some(KeywordValue::Variant(13)));
    assert_eq!(k.parse_ident("BaseLine"), Some(KeywordValue::Variant(13)));
    assert_eq!(k.parse_ident("cEnTeR"), k.parse_ident("center"));
    // The Kelvin sign folds to `k` in Unicode, but it is no ASCII letter.
    let k2 = KeywordEnum::compile(vec![entry("k", 1)], 1, false).unwrap();
    assert_eq!(k2.parse_ident("K"), Some(KeywordValue::Variant(1)));
    assert_eq!(k2.parse_ident("\u{212A}"), None);
}

#[test]
fn to_text_gives_the_registered_spelling() {
    let k = KeywordEnum::compile(vec![entry("Stretch-To-Fit", 0), entry("ignore", 1)], 0, false)
        .unwrap();
    assert_eq!(k.to_text(KeywordValue::Variant(0)), Some("Stretch-To-Fit".to_string()));
    assert_eq!(k.to_text(KeywordValue::Variant(1)), Some("ignore".to_string()));
    assert_eq!(k.to_text(KeywordValue::Variant(2)), None);
    assert_eq!(k.to_text(KeywordValue::Passthrough), None);
}

#[test]
fn token_round_trip_reproduces_spelling() {
    let k = box_align(false);
    for i in 0..k.len() {
        let token = k.entry(i).token.clone();
        let value = k.parse_ident(&token).unwrap();
        assert_eq!(k.to_text(value), Some(token));
    }
}

#[test]
fn variant_round_trip_reproduces_variant() {
    let k = box_align(false);
    for v in 10..15u32 {
        let text = k.to_text(KeywordValue::Variant(v)).unwrap();
        assert_eq!(k.parse_ident(&text), Some(KeywordValue::Variant(v)));
    }
}

#[test]
fn duplicate_token_is_refused_with_its_index() {
    let r = KeywordEnum::compile(
        vec![entry("normal", 0), entry("reverse", 1), entry("NORMAL", 2)],
        0,
        false,
    );
    assert_eq!(r.err(), Some(KeywordError::DuplicateToken(2)));
    let r = KeywordEnum::compile(
        vec![entry("a", 0), entry("b", 1), entry("b", 2), entry("a", 3)],
        0,
        false,
    );
    assert_eq!(r.err(), Some(KeywordError::DuplicateToken(2)));
}

#[test]
fn duplicate_variant_is_refused_with_its_index() {
    let r = KeywordEnum::compile(
        vec![entry("normal", 0), entry("reverse", 1), entry("other", 1)],
        0,
        false,
    );
    assert_eq!(r.err(), Some(KeywordError::DuplicateVariant(2)));
}

#[test]
fn token_clash_is_reported_before_variant_clash() {
    let r = KeywordEnum::compile(
        vec![entry("a", 0), entry("b", 0), entry("A", 2)],
        0,
        false,
    );
    assert_eq!(r.err(), Some(KeywordError::DuplicateToken(2)));
}

#[test]
fn unknown_initial_is_refused() {
    let r = KeywordEnum::compile(vec![entry("normal", 0), entry("reverse", 1)], 7, false);
    assert_eq!(r.err(), Some(KeywordError::UnknownInitial));
    let r = KeywordEnum::compile(Vec::new(), 0, false);
    assert_eq!(r.err(), Some(KeywordError::UnknownInitial));
}

#[test]
fn initial_value_is_the_designated_variant() {
    let k = KeywordEnum::compile(vec![entry("normal", 5), entry("reverse", 6)], 6, false).unwrap();
    assert_eq!(k.initial_value(), KeywordValue::Variant(6));
}

#[test]
fn passthrough_is_legal_only_when_inexhaustive() {
    assert!(box_align(true).is_legal(KeywordValue::Passthrough));
    assert!(!box_align(false).is_legal(KeywordValue::Passthrough));
    assert!(box_align(false).is_legal(KeywordValue::Variant(12)));
    assert!(!box_align(false).is_legal(KeywordValue::Variant(9)));
}

#[test]
fn no_text_parses_to_passthrough() {
    let k = box_align(true);
    for text in ["stretch", "passthrough", "", "end", "unknown", "-moz-other"] {
        assert_ne!(k.parse_ident(text), Some(KeywordValue::Passthrough));
    }
}

#[test]
fn stream_parse_consumes_one_token() {
    let k = box_align(false);
    let mut input = TokenStream::new(vec![
        Token::Ident("End".to_string()),
        Token::Ident("start".to_string()),
    ]);
    assert_eq!(k.parse(&mut input), Ok(KeywordValue::Variant(14)));
    assert_eq!(k.parse(&mut input), Ok(KeywordValue::Variant(11)));
    assert_eq!(k.parse(&mut input), Err(ParseError::EndOfInput(Expected::Keyword)));
}

#[test]
fn stream_parse_names_unknown_keyword() {
    let k = box_align(false);
    let mut input = stream_of_text("Justify");
    assert_eq!(k.parse(&mut input), Err(ParseError::UnknownKeyword("Justify".to_string())));
    let mut input = stream_of_text("3.5");
    assert_eq!(k.parse(&mut input), Err(ParseError::UnexpectedToken(Expected::Keyword)));
    let mut input = TokenStream::new(vec![Token::Other]);
    assert_eq!(k.parse(&mut input), Err(ParseError::UnexpectedToken(Expected::Keyword)));
}
