use style_properties::backend::{BackendBinding, BackendMap, BindingError, Prefix};
use style_properties::keyword::{KeywordEntry, KeywordEnum, KeywordValue};

fn entry(token: &str, variant: u32) -> KeywordEntry {
    KeywordEntry { token: token.to_string(), variant }
}

fn keywords(tokens: &[&str], inexhaustive: bool) -> KeywordEnum {
    let entries = tokens.iter().enumerate().map(|(i, t)| entry(t, i as u32)).collect();
    KeywordEnum::compile(entries, 0, inexhaustive).unwrap()
}

fn binding(field: &str, prefix: Option<Prefix>) -> BackendBinding {
    BackendBinding { field_name: field.to_string(), prefix, inexhaustive: false }
}

#[test]
fn enum_prefix_gives_camel_case_members() {
    let p = Prefix::Enum("StyleBoxAlign".to_string());
    assert_eq!(p.identifier("stretch"), "StyleBoxAlign::Stretch");
    assert_eq!(p.identifier("inline-axis"), "StyleBoxAlign::InlineAxis");
    assert_eq!(p.identifier("stretch-to-fit"), "StyleBoxAlign::StretchToFit");
    assert_eq!(p.identifier("-moz-box"), "StyleBoxAlign::MozBox");
    assert_eq!(p.identifier("a--b"), "StyleBoxAlign::AB");
    assert_eq!(p.identifier("already-Upper"), "StyleBoxAlign::AlreadyUpper");
    assert_eq!(p.identifier(""), "StyleBoxAlign::");
    assert_eq!(p.identifier("x9-9y"), "StyleBoxAlign::X99y");
}

#[test]
fn constant_prefix_gives_constant_case() {
    let p = Prefix::Constant("NS_STYLE_STACK_SIZING".to_string());
    assert_eq!(p.identifier("stretch-to-fit"), "NS_STYLE_STACK_SIZING_STRETCH_TO_FIT");
    assert_eq!(p.identifier("ignore"), "NS_STYLE_STACK_SIZING_IGNORE");
    assert_eq!(p.identifier("a--b"), "NS_STYLE_STACK_SIZING_A__B");
    assert_eq!(p.identifier("Mixed9"), "NS_STYLE_STACK_SIZING_MIXED9");
    assert_eq!(p.identifier("é-a"), "NS_STYLE_STACK_SIZING_é_A");
}

#[test]
fn bind_links_each_variant_to_its_identifier() {
    let k = keywords(&["start", "center", "end", "justify"], false);
    let m = BackendMap::bind(&k, &binding("mBoxPack", Some(Prefix::Enum("StyleBoxPack".to_string()))))
        .unwrap();
    assert_eq!(m.field_name(), "mBoxPack");
    assert_eq!(m.to_backend(KeywordValue::Variant(0)), Some("StyleBoxPack::Start".to_string()));
    assert_eq!(m.to_backend(KeywordValue::Variant(3)), Some("StyleBoxPack::Justify".to_string()));
    assert_eq!(m.to_backend(KeywordValue::Variant(4)), None);
    assert_eq!(m.to_backend(KeywordValue::Passthrough), None);
    assert_eq!(m.from_backend("StyleBoxPack::Center"), Some(KeywordValue::Variant(1)));
    assert_eq!(m.from_backend("StyleBoxPack::center"), None);
    assert_eq!(m.from_backend("StyleBoxPack::Stretch"), None);
}

#[test]
fn map_is_one_to_one() {
    let k = keywords(&["stretch", "start", "center", "baseline", "end"], true);
    let m = BackendMap::bind(&k, &binding("mBoxAlign", Some(Prefix::Enum("StyleBoxAlign".to_string()))))
        .unwrap();
    for v in 0..5u32 {
        let id = m.to_backend(KeywordValue::Variant(v)).unwrap();
        assert_eq!(m.from_backend(&id), Some(KeywordValue::Variant(v)));
    }
    for id in ["StyleBoxAlign::Stretch", "StyleBoxAlign::End"] {
        let v = m.from_backend(id).unwrap();
        assert_eq!(m.to_backend(v), Some(id.to_string()));
    }
}

#[test]
fn passthrough_comes_from_unknown_identifier_of_inexhaustive_map() {
    let k = keywords(&["stretch", "start"], true);
    let m = BackendMap::bind(&k, &binding("mBoxAlign", Some(Prefix::Enum("StyleBoxAlign".to_string()))))
        .unwrap();
    assert_eq!(m.from_backend("StyleBoxAlign::Last"), Some(KeywordValue::Passthrough));
    assert_eq!(m.from_backend(""), Some(KeywordValue::Passthrough));
    assert_eq!(m.from_backend("StyleBoxAlign::Start"), Some(KeywordValue::Variant(1)));
}

#[test]
fn missing_prefix_is_refused() {
    let k = keywords(&["stretch", "start"], false);
    let r = BackendMap::bind(&k, &binding("mBoxAlign", None));
    assert_eq!(r.err(), Some(BindingError::MissingPrefix));
}

#[test]
fn colliding_identifiers_are_refused_with_the_index() {
    let k = keywords(&["a-b", "c", "a--b"], false);
    let r = BackendMap::bind(&k, &binding("f", Some(Prefix::Enum("E".to_string()))));
    assert_eq!(r.err(), Some(BindingError::Collision(2)));
    // The same tokens stay apart in constant case.
    let r = BackendMap::bind(&k, &binding("f", Some(Prefix::Constant("C".to_string()))));
    assert!(r.is_ok());
    // A hyphen and an underscore fall together in constant case.
    let k = keywords(&["a-b", "a_b"], false);
    let r = BackendMap::bind(&k, &binding("f", Some(Prefix::Constant("C".to_string()))));
    assert_eq!(r.err(), Some(BindingError::Collision(1)));
}
