use style_properties::css::stream_of_text;
use style_properties::backend::{BackendBinding, BindingError, Prefix};
use style_properties::descriptor::{AnimationType, CustomUnit, Products, PropertyDescriptor, ValueKind};
use style_properties::keyword::{KeywordEntry, KeywordError, KeywordValue};
use style_properties::longhand::{
    derive_computed, CascadeContext, Derivation, Longhand, SchemaError, SerializeError,
};
use style_properties::number::Decimal;
use style_properties::token::{Token, TokenStream};
use style_properties::value::{Expected, ParseError, ParserContext, SpecifiedValue};

const BOUND: Products = Products { native: false, bound: true };
const NATIVE: Products = Products { native: true, bound: false };

fn context() -> ParserContext {
    ParserContext {}
}

fn no_context() -> CascadeContext {
    CascadeContext { inherited: None }
}

fn entries(tokens: &[&str]) -> Vec<KeywordEntry> {
    tokens
        .iter()
        .enumerate()
        .map(|(i, t)| KeywordEntry { token: t.to_string(), variant: i as u32 })
        .collect()
}

fn binding(field: &str, prefix: Option<Prefix>, inexhaustive: bool) -> Option<BackendBinding> {
    Some(BackendBinding { field_name: field.to_string(), prefix, inexhaustive })
}

fn descriptor(name: &str, kind: ValueKind, products: Products, b: Option<BackendBinding>) -> PropertyDescriptor {
    PropertyDescriptor {
        name: name.to_string(),
        aliases: Vec::new(),
        products,
        value_kind: kind,
        animation_type: AnimationType::NotAnimated,
        inherited: false,
        binding: b,
        spec: "Nonstandard".to_string(),
    }
}

fn keyword_kind(tokens: &[&str], initial: u32) -> ValueKind {
    ValueKind::Keyword { entries: entries(tokens), initial }
}

fn predefined(primitive: &str, parser: Option<&str>, default: Option<&str>) -> ValueKind {
    ValueKind::Predefined {
        primitive: primitive.to_string(),
        parser: parser.map(|p| p.to_string()),
        default: default.map(|d| d.to_string()),
    }
}

fn box_orient_by_keywords() -> Longhand {
    Longhand::compile(descriptor(
        "-moz-box-orient",
        keyword_kind(&["inline-axis", "block-axis", "horizontal", "vertical"], 2),
        BOUND,
        binding("mBoxOrient", Some(Prefix::Enum("StyleBoxOrient".to_string())), false),
    ))
    .unwrap()
}

fn box_flex() -> Longhand {
    Longhand::compile(descriptor(
        "-moz-box-flex",
        predefined("Number", Some("parse_non_negative"), Some("0.0")),
        BOUND,
        binding("mBoxFlex", None, false),
    ))
    .unwrap()
}

fn box_ordinal_group() -> Longhand {
    Longhand::compile(descriptor(
        "-moz-box-ordinal-group",
        predefined("Integer", Some("parse_non_negative"), Some("0")),
        BOUND,
        binding("mBoxOrdinal", None, false),
    ))
    .unwrap()
}

fn text_of(unit: &Longhand, value: SpecifiedValue) -> Result<String, SerializeError> {
    let mut dest = String::new();
    unit.to_text(value, &mut dest).map(|()| dest)
}

#[test]
fn keyword_property_parses_serializes_and_has_initial_value() {
    let unit = box_orient_by_keywords();
    let mut input = stream_of_text("block-axis");
    let block_axis = SpecifiedValue::Keyword(KeywordValue::Variant(1));
    assert_eq!(unit.parse(&context(), &mut input), Ok(block_axis));
    assert_eq!(text_of(&unit, block_axis), Ok("block-axis".to_string()));
    assert_eq!(unit.initial_value(), SpecifiedValue::Keyword(KeywordValue::Variant(2)));
    assert_eq!(text_of(&unit, unit.initial_value()), Ok("horizontal".to_string()));
}

#[test]
fn custom_unit_behaves_as_the_keyword_table_does() {
    let custom = Longhand::compile(descriptor(
        "-moz-box-orient",
        ValueKind::Custom(CustomUnit::BoxOrient),
        BOUND,
        binding("mBoxOrient", Some(Prefix::Enum("StyleBoxOrient".to_string())), false),
    ))
    .unwrap();
    let table = box_orient_by_keywords();
    for text in ["inline-axis", "BLOCK-axis", "horizontal", "vertical", "diagonal", "1", ""] {
        let mut a = stream_of_text(text);
        let mut b = stream_of_text(text);
        assert_eq!(custom.parse(&context(), &mut a), table.parse(&context(), &mut b), "{:?}", text);
    }
    assert_eq!(custom.initial_value(), table.initial_value());
    for v in 0..5u32 {
        let value = SpecifiedValue::Keyword(KeywordValue::Variant(v));
        assert_eq!(text_of(&custom, value), text_of(&table, value));
        assert_eq!(custom.to_backend(value), table.to_backend(value));
    }
    assert_eq!(
        custom.from_backend("StyleBoxOrient::Vertical"),
        Some(SpecifiedValue::Keyword(KeywordValue::Variant(3)))
    );
}

#[test]
fn numeric_property_checks_range() {
    let unit = box_flex();
    let mut input = stream_of_text("-1");
    assert_eq!(unit.parse(&context(), &mut input), Err(ParseError::RangeViolation));
    let mut input = stream_of_text("2.5");
    let r = unit.parse(&context(), &mut input);
    assert_eq!(r, Ok(SpecifiedValue::Number(Decimal { negative: false, mantissa: 25, scale: 1 })));
    match r {
        Ok(SpecifiedValue::Number(d)) => {
            assert_eq!(d.mantissa as f32 / 10f32.powi(d.scale as i32), 2.5f32)
        }
        _ => unreachable!(),
    }
}

#[test]
fn initial_value_is_the_parsed_default() {
    let unit = box_flex();
    let mut input = stream_of_text("0.0");
    let parsed = unit.parse(&context(), &mut input).unwrap();
    assert_eq!(unit.initial_value(), unit.compute(parsed, &no_context()));
    assert_eq!(unit.initial_value(), SpecifiedValue::Number(Decimal { negative: false, mantissa: 0, scale: 1 }));
    let unit = box_ordinal_group();
    let mut input = stream_of_text("0");
    let parsed = unit.parse(&context(), &mut input).unwrap();
    assert_eq!(unit.initial_value(), unit.compute(parsed, &no_context()));
    assert_eq!(unit.initial_value(), SpecifiedValue::Integer(0));
}

#[test]
fn computed_value_is_the_specified_value() {
    let unit = box_orient_by_keywords();
    let inherited = CascadeContext { inherited: Some(SpecifiedValue::Keyword(KeywordValue::Variant(0))) };
    for v in 0..4u32 {
        let value = SpecifiedValue::Keyword(KeywordValue::Variant(v));
        assert_eq!(unit.compute(value, &no_context()), value);
        assert_eq!(unit.compute(value, &inherited), value);
    }
    assert_eq!(unit.derivation(), Derivation::Identity);
}

#[test]
fn contextual_derivation_defers_one_variant_to_the_context() {
    let defer = Derivation::Contextual { defer: 9 };
    let deferring = SpecifiedValue::Keyword(KeywordValue::Variant(9));
    let other = SpecifiedValue::Keyword(KeywordValue::Variant(1));
    let initial = SpecifiedValue::Keyword(KeywordValue::Variant(2));
    let parent = SpecifiedValue::Keyword(KeywordValue::Variant(3));
    let with_parent = CascadeContext { inherited: Some(parent) };
    assert_eq!(derive_computed(defer, deferring, initial, &with_parent), parent);
    assert_eq!(derive_computed(defer, deferring, initial, &no_context()), initial);
    assert_eq!(derive_computed(defer, other, initial, &with_parent), other);
    assert_eq!(derive_computed(defer, SpecifiedValue::Integer(9), initial, &with_parent), SpecifiedValue::Integer(9));
    assert_eq!(derive_computed(Derivation::Identity, deferring, initial, &with_parent), deferring);
}

#[test]
fn text_round_trips_for_every_shape() {
    let cases: Vec<(Longhand, Vec<&str>)> = vec![
        (box_orient_by_keywords(), vec!["inline-axis", "Vertical", "HORIZONTAL"]),
        (box_flex(), vec!["0", "0.0", "2.5", "+3", "007.50", ".5", "-0"]),
        (box_ordinal_group(), vec!["0", "12", "+4", "0012", "2147483647"]),
    ];
    for (unit, texts) in cases {
        for text in texts {
            let mut input = stream_of_text(text);
            let value = unit.parse(&context(), &mut input).unwrap();
            let written = text_of(&unit, value).unwrap();
            let mut again = stream_of_text(&written);
            assert_eq!(unit.parse(&context(), &mut again), Ok(value), "{:?}", text);
        }
    }
}

#[test]
fn integer_text_covers_the_whole_range() {
    let unit = Longhand::compile(descriptor(
        "z",
        predefined("Integer", Some("parse"), Some("0")),
        NATIVE,
        None,
    ))
    .unwrap();
    assert_eq!(text_of(&unit, SpecifiedValue::Integer(i32::MIN)), Ok("-2147483648".to_string()));
    assert_eq!(text_of(&unit, SpecifiedValue::Integer(i32::MAX)), Ok("2147483647".to_string()));
    assert_eq!(text_of(&unit, SpecifiedValue::Integer(-5)), Ok("-5".to_string()));
    let mut input = stream_of_text("-2147483648");
    assert_eq!(unit.parse(&context(), &mut input), Ok(SpecifiedValue::Integer(i32::MIN)));
}

#[test]
fn to_text_appends_and_leaves_dest_alone_on_failure() {
    let unit = box_orient_by_keywords();
    let mut dest = "x=".to_string();
    assert_eq!(unit.to_text(SpecifiedValue::Keyword(KeywordValue::Variant(3)), &mut dest), Ok(()));
    assert_eq!(dest, "x=vertical");
    assert_eq!(
        unit.to_text(SpecifiedValue::Keyword(KeywordValue::Passthrough), &mut dest),
        Err(SerializeError::NoText)
    );
    assert_eq!(unit.to_text(SpecifiedValue::Integer(1), &mut dest), Err(SerializeError::NoText));
    assert_eq!(unit.to_text(SpecifiedValue::Keyword(KeywordValue::Variant(4)), &mut dest), Err(SerializeError::NoText));
    assert_eq!(dest, "x=vertical");
    let flex = box_flex();
    assert_eq!(flex.to_text(SpecifiedValue::Integer(1), &mut dest), Err(SerializeError::NoText));
    assert_eq!(dest, "x=vertical");
}

#[test]
fn passthrough_comes_only_from_the_backend() {
    let unit = Longhand::compile(descriptor(
        "-moz-box-align",
        keyword_kind(&["stretch", "start", "center", "baseline", "end"], 0),
        BOUND,
        binding("mBoxAlign", Some(Prefix::Enum("StyleBoxAlign".to_string())), true),
    ))
    .unwrap();
    let passthrough = SpecifiedValue::Keyword(KeywordValue::Passthrough);
    assert_eq!(unit.from_backend("StyleBoxAlign::Last"), Some(passthrough));
    assert_eq!(unit.compute(passthrough, &no_context()), passthrough);
    for text in ["stretch", "last", "passthrough", "", "0", "StyleBoxAlign::Last"] {
        let mut input = stream_of_text(text);
        assert_ne!(unit.parse(&context(), &mut input), Ok(passthrough));
    }
    assert_eq!(unit.to_backend(passthrough), None);
    assert_eq!(
        unit.from_backend("StyleBoxAlign::Baseline"),
        Some(SpecifiedValue::Keyword(KeywordValue::Variant(3)))
    );
    assert_eq!(
        unit.to_backend(SpecifiedValue::Keyword(KeywordValue::Variant(4))),
        Some("StyleBoxAlign::End".to_string())
    );
}

#[test]
fn exhaustive_map_reports_nothing_for_unknown_identifier() {
    let unit = box_orient_by_keywords();
    assert_eq!(unit.from_backend("StyleBoxOrient::Diagonal"), None);
    assert_eq!(box_flex().from_backend("anything"), None);
    assert_eq!(box_flex().to_backend(SpecifiedValue::Integer(0)), None);
}

#[test]
fn accessors_report_the_descriptor() {
    let mut d = descriptor(
        "-moz-stack-sizing",
        keyword_kind(&["stretch-to-fit", "ignore"], 0),
        BOUND,
        binding("mStretchStack", Some(Prefix::Constant("NS_STYLE_STACK_SIZING".to_string())), false),
    );
    d.aliases = vec!["stack-sizing".to_string(), "-x-stack".to_string()];
    d.animation_type = AnimationType::Discrete;
    d.inherited = true;
    let unit = Longhand::compile(d).unwrap();
    assert_eq!(unit.name(), "-moz-stack-sizing");
    assert_eq!(unit.alias_count(), 2);
    assert_eq!(unit.alias(0), "stack-sizing");
    assert_eq!(unit.alias(1), "-x-stack");
    assert_eq!(unit.products(), BOUND);
    assert!(unit.products().bound);
    assert!(!unit.products().native);
    assert_eq!(unit.animation_type(), AnimationType::Discrete);
    assert!(unit.is_animatable());
    assert!(unit.is_inherited());
    assert_eq!(unit.field_name(), Some("mStretchStack"));
    assert_eq!(
        unit.to_backend(SpecifiedValue::Keyword(KeywordValue::Variant(0))),
        Some("NS_STYLE_STACK_SIZING_STRETCH_TO_FIT".to_string())
    );
    assert!(!box_flex().is_animatable());
    assert_eq!(box_flex().field_name(), Some("mBoxFlex"));
}

#[test]
fn native_property_needs_no_binding() {
    let unit = Longhand::compile(descriptor("direction", keyword_kind(&["ltr", "rtl"], 0), NATIVE, None))
        .unwrap();
    assert_eq!(unit.field_name(), None);
    assert_eq!(unit.to_backend(SpecifiedValue::Keyword(KeywordValue::Variant(0))), None);
    assert_eq!(unit.from_backend("anything"), None);
}

#[test]
fn bound_property_without_binding_is_refused() {
    let r = Longhand::compile(descriptor("p", keyword_kind(&["a", "b"], 0), BOUND, None));
    assert_eq!(r.err(), Some(SchemaError::MissingBinding));
    // The binding record is looked at before the value.
    let r = Longhand::compile(descriptor("p", keyword_kind(&["a", "A"], 0), BOUND, None));
    assert_eq!(r.err(), Some(SchemaError::MissingBinding));
}

#[test]
fn keyword_list_errors_are_passed_on() {
    let r = Longhand::compile(descriptor("p", keyword_kind(&["normal", "Normal"], 0), NATIVE, None));
    assert_eq!(r.err(), Some(SchemaError::Keyword(KeywordError::DuplicateToken(1))));
    let r = Longhand::compile(descriptor("p", keyword_kind(&["normal", "reverse"], 5), NATIVE, None));
    assert_eq!(r.err(), Some(SchemaError::Keyword(KeywordError::UnknownInitial)));
    let kind = ValueKind::Keyword {
        entries: vec![
            KeywordEntry { token: "a".to_string(), variant: 1 },
            KeywordEntry { token: "b".to_string(), variant: 1 },
        ],
        initial: 1,
    };
    let r = Longhand::compile(descriptor("p", kind, NATIVE, None));
    assert_eq!(r.err(), Some(SchemaError::Keyword(KeywordError::DuplicateVariant(1))));
}

#[test]
fn predefined_needs_type_parser_and_default() {
    let compile = |kind| Longhand::compile(descriptor("p", kind, NATIVE, None)).err();
    assert_eq!(compile(predefined("Length", Some("parse"), Some("0"))), Some(SchemaError::UnknownPrimitive));
    assert_eq!(compile(predefined("Number", None, Some("0"))), Some(SchemaError::MissingParser));
    assert_eq!(compile(predefined("Number", Some("parse_positive"), Some("0"))), Some(SchemaError::UnknownParser));
    assert_eq!(compile(predefined("Number", Some("parse"), None)), Some(SchemaError::MissingDefault));
    assert_eq!(compile(predefined("Number", None, None)), Some(SchemaError::MissingParser));
}

#[test]
fn default_must_be_parseable_by_the_parser() {
    let compile = |kind| Longhand::compile(descriptor("p", kind, NATIVE, None)).err();
    assert_eq!(compile(predefined("Number", Some("parse_non_negative"), Some("-1"))), Some(SchemaError::InvalidDefault));
    assert_eq!(compile(predefined("Number", Some("parse"), Some("auto"))), Some(SchemaError::InvalidDefault));
    assert_eq!(compile(predefined("Number", Some("parse"), Some(""))), Some(SchemaError::InvalidDefault));
    assert_eq!(compile(predefined("Integer", Some("parse"), Some("0.0"))), Some(SchemaError::InvalidDefault));
    assert_eq!(compile(predefined("Integer", Some("parse"), Some("1e2"))), Some(SchemaError::InvalidDefault));
    assert_eq!(compile(predefined("Integer", Some("parse"), Some("12px"))), Some(SchemaError::InvalidDefault));
    assert_eq!(compile(predefined("Number", Some("parse"), Some("-1"))), None);
}

#[test]
fn unmapped_backend_values_are_refused() {
    let r = Longhand::compile(descriptor(
        "p",
        keyword_kind(&["a", "b"], 0),
        BOUND,
        binding("mP", None, false),
    ));
    assert_eq!(r.err(), Some(SchemaError::Binding(BindingError::MissingPrefix)));
    let r = Longhand::compile(descriptor(
        "p",
        keyword_kind(&["a-b", "a--b"], 0),
        BOUND,
        binding("mP", Some(Prefix::Enum("E".to_string())), false),
    ));
    assert_eq!(r.err(), Some(SchemaError::Binding(BindingError::Collision(1))));
    // A custom unit is bound only where its record names a prefix.
    let r = Longhand::compile(descriptor(
        "-moz-box-orient",
        ValueKind::Custom(CustomUnit::BoxOrient),
        BOUND,
        binding("mBoxOrient", None, false),
    ));
    assert!(r.is_ok());
    // A property that does not target the bound backend is not bound.
    let r = Longhand::compile(descriptor(
        "p",
        keyword_kind(&["a-b", "a--b"], 0),
        NATIVE,
        binding("mP", Some(Prefix::Enum("E".to_string())), false),
    ));
    assert!(r.is_ok());
}

#[test]
fn parse_consumes_one_token_on_failure_too() {
    let unit = box_flex();
    let mut input = TokenStream::new(vec![
        Token::Ident("auto".to_string()),
        Token::Number(Decimal { negative: false, mantissa: 15, scale: 1 }),
    ]);
    assert_eq!(unit.parse(&context(), &mut input), Err(ParseError::UnexpectedToken(Expected::Number)));
    assert!(unit.parse(&context(), &mut input).is_ok());
    assert_eq!(unit.parse(&context(), &mut input), Err(ParseError::EndOfInput(Expected::Number)));
}
