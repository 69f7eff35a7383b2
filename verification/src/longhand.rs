//! Longhand units: what a descriptor compiles to. A unit holds the shape
//! of the property's value and offers, uniformly, a parser, the initial
//! value, the computed value and a serializer.

use vstd::prelude::*;
use vstd::string::StringExecFns;
use crate::backend::{
    bindable, binding_refused_with, bound_table, BackendBinding, BackendMap, BackendTable,
    BindingError,
};
use crate::box_orient;
use crate::css::{first_token_of_text, next_as_stream, pending, pending_tokens};
use crate::box_orient::BoxOrientKeyword;
use crate::descriptor::{
    AnimationType, CustomUnit, DescriptorModel, Products, PropertyDescriptor, ValueKind,
    ValueKindModel,
};
use crate::keyword::{refused_with, KeywordEnum, KeywordError, KeywordTable, KeywordValue};
use crate::number::{decimal_text, Decimal};
use crate::primitive::{
    decimal_from_integer, decimal_of_integer, literal_value, parse_literal, parse_primitive,
    parse_primitive_tokens, parser_named, type_named, PrimitiveParser, PrimitiveType,
};
use crate::token::{rest, TokenModel, TokenStream};
use crate::value::{agrees, ParseError, ParseFailure, ParserContext, SpecifiedValue};

verus! {

/// A computed value. Every property defined here computes to a value of
/// the same form as its specified value.
pub type ComputedValue = SpecifiedValue;

/// The compiled shape of a property's value, as a mathematical value.
pub enum ShapeModel {
    Keyword { table: KeywordTable, map: Option<BackendTable> },
    Predefined { primitive: PrimitiveType, parser: PrimitiveParser, default: SpecifiedValue },
    Custom { unit: CustomUnit, map: Option<BackendTable> },
}

/// A longhand unit as a mathematical value.
pub struct LonghandModel {
    pub name: Seq<char>,
    pub aliases: Seq<Seq<char>>,
    pub products: Products,
    pub shape: ShapeModel,
    pub animation_type: AnimationType,
    pub inherited: bool,
    pub field_name: Option<Seq<char>>,
}

/// The value that a keyword of the box orientation stands for.
pub open spec fn box_orient_value(k: BoxOrientKeyword) -> SpecifiedValue {
    SpecifiedValue::Keyword(KeywordValue::Variant(k.variant_of()))
}

impl ShapeModel {
    /// What a stream of tokens parses to.
    pub open spec fn parse(self, input: Seq<TokenModel>) -> Result<SpecifiedValue, ParseFailure> {
        match self {
            ShapeModel::Keyword { table, .. } => match table.parse_tokens(input) {
                Ok(v) => Ok(SpecifiedValue::Keyword(v)),
                Err(e) => Err(e),
            },
            ShapeModel::Predefined { primitive, parser, .. } => parse_primitive_tokens(
                primitive,
                parser,
                input,
            ),
            ShapeModel::Custom { unit: CustomUnit::BoxOrient, .. } => match box_orient::parse_tokens(
                input,
            ) {
                Ok(k) => Ok(box_orient_value(k)),
                Err(e) => Err(e),
            },
        }
    }

    /// The initial value.
    pub open spec fn initial_value(self) -> ComputedValue {
        match self {
            ShapeModel::Keyword { table, .. } => SpecifiedValue::Keyword(
                KeywordValue::Variant(table.initial),
            ),
            ShapeModel::Predefined { default, .. } => default,
            ShapeModel::Custom { unit: CustomUnit::BoxOrient, .. } => box_orient_value(
                BoxOrientKeyword::Horizontal,
            ),
        }
    }

    /// The canonical text of a value, where the value is one that the
    /// property can express in text.
    pub open spec fn text_of(self, value: SpecifiedValue) -> Option<Seq<char>> {
        match self {
            ShapeModel::Keyword { table, .. } => match value {
                SpecifiedValue::Keyword(v) => table.text_of(v),
                _ => None,
            },
            ShapeModel::Predefined { primitive, .. } => match (primitive, value) {
                (PrimitiveType::Number, SpecifiedValue::Number(d)) => Some(decimal_text(d)),
                (PrimitiveType::Integer, SpecifiedValue::Integer(v)) => Some(
                    decimal_text(decimal_of_integer(v)),
                ),
                _ => None,
            },
            ShapeModel::Custom { unit: CustomUnit::BoxOrient, .. } => match value {
                SpecifiedValue::Keyword(KeywordValue::Variant(v)) => match box_orient::keyword_numbered(
                    v,
                ) {
                    Some(k) => Some(box_orient::token_text(k)),
                    None => None,
                },
                _ => None,
            },
        }
    }
}

/// Why a descriptor, or a set of descriptors, was refused.
#[derive(Clone, Copy, Debug, PartialEq, Eq, Structural)]
pub enum SchemaError {
    /// The canonical name is a spelling that an earlier property has.
    DuplicateName,
    /// The alias at this index is a spelling that is taken already.
    AliasConflict(usize),
    /// The property targets the bound backend and has no binding record.
    MissingBinding,
    /// The keyword list is not well formed.
    Keyword(KeywordError),
    /// The primitive type is not known by this name.
    UnknownPrimitive,
    /// No parser is named.
    MissingParser,
    /// The parser is not known by this name.
    UnknownParser,
    /// No default literal is given.
    MissingDefault,
    /// The named parser does not accept the default literal.
    InvalidDefault,
    /// Some value has no identifier of its own in the backend.
    Binding(BindingError),
}

impl DescriptorModel {
    /// The property targets the bound backend and has no binding record.
    pub open spec fn lacks_binding(self) -> bool {
        self.products.bound && self.binding is None
    }

    /// The backend may report values beyond the declared ones.
    pub open spec fn inexhaustive(self) -> bool {
        self.binding is Some && self.binding.unwrap().inexhaustive
    }

    /// The keyword table that a keyword list declares.
    pub open spec fn declared_table(self) -> KeywordTable {
        KeywordTable {
            rows: self.value_kind->rows,
            initial: self.value_kind->initial,
            inexhaustive: self.inexhaustive(),
        }
    }

    /// The keyword table from which backend identifiers are derived.
    pub open spec fn keyword_source(self) -> KeywordTable {
        match self.value_kind {
            ValueKindModel::Custom(CustomUnit::BoxOrient) => box_orient::table(),
            _ => self.declared_table(),
        }
    }

    /// The variants of the property are bound to backend identifiers: it
    /// targets the bound backend, and it is a keyword list, or a custom
    /// unit whose binding record names a prefix.
    pub open spec fn wants_map(self) -> bool {
        &&& self.products.bound
        &&& self.binding is Some
        &&& match self.value_kind {
            ValueKindModel::Keyword { .. } => true,
            ValueKindModel::Predefined { .. } => false,
            ValueKindModel::Custom(_) => self.binding.unwrap().prefix is Some,
        }
    }

    /// The value shape is declared in full and is consistent.
    pub open spec fn kind_valid(self) -> bool {
        match self.value_kind {
            ValueKindModel::Keyword { .. } => self.declared_table().well_formed(),
            ValueKindModel::Predefined { primitive, parser, default } => {
                &&& type_named(primitive) is Some
                &&& parser is Some
                &&& parser_named(parser.unwrap()) is Some
                &&& default is Some
                &&& literal_value(
                    type_named(primitive).unwrap(),
                    parser_named(parser.unwrap()).unwrap(),
                    default.unwrap(),
                ) is Ok
            },
            ValueKindModel::Custom(_) => true,
        }
    }

    /// The descriptor can be compiled.
    pub open spec fn valid(self) -> bool {
        &&& !self.lacks_binding()
        &&& self.kind_valid()
        &&& self.wants_map() ==> bindable(self.keyword_source(), self.binding.unwrap())
    }

    /// The error that the descriptor is refused with. The checks are made
    /// in this order: the binding record, the value shape, the backend map.
    pub open spec fn refused_with(self, e: SchemaError) -> bool {
        match e {
            SchemaError::DuplicateName => false,
            SchemaError::AliasConflict(_) => false,
            SchemaError::MissingBinding => self.lacks_binding(),
            SchemaError::Keyword(k) => {
                &&& !self.lacks_binding()
                &&& self.value_kind is Keyword
                &&& refused_with(self.declared_table(), k)
            },
            SchemaError::UnknownPrimitive => {
                &&& !self.lacks_binding()
                &&& self.value_kind matches ValueKindModel::Predefined { primitive, .. }
                &&& type_named(primitive) is None
            },
            SchemaError::MissingParser => {
                &&& !self.lacks_binding()
                &&& self.value_kind matches ValueKindModel::Predefined { primitive, parser, .. }
                &&& type_named(primitive) is Some
                &&& parser is None
            },
            SchemaError::UnknownParser => {
                &&& !self.lacks_binding()
                &&& self.value_kind matches ValueKindModel::Predefined { primitive, parser, .. }
                &&& type_named(primitive) is Some
                &&& parser is Some
                &&& parser_named(parser.unwrap()) is None
            },
            SchemaError::MissingDefault => {
                &&& !self.lacks_binding()
                &&& self.value_kind matches ValueKindModel::Predefined { primitive, parser, default }
                &&& type_named(primitive) is Some
                &&& parser is Some
                &&& parser_named(parser.unwrap()) is Some
                &&& default is None
            },
            SchemaError::InvalidDefault => {
                &&& !self.lacks_binding()
                &&& self.value_kind matches ValueKindModel::Predefined { primitive, parser, default }
                &&& type_named(primitive) is Some
                &&& parser is Some
                &&& parser_named(parser.unwrap()) is Some
                &&& default is Some
                &&& literal_value(
                    type_named(primitive).unwrap(),
                    parser_named(parser.unwrap()).unwrap(),
                    default.unwrap(),
                ) is Err
            },
            SchemaError::Binding(b) => {
                &&& !self.lacks_binding()
                &&& self.kind_valid()
                &&& self.wants_map()
                &&& binding_refused_with(
                    self.keyword_source().rows,
                    self.binding.unwrap().prefix,
                    b,
                )
            },
        }
    }

    /// The backend map of the compiled unit, where it has one.
    pub open spec fn compiled_map(self) -> Option<BackendTable> {
        if self.wants_map() {
            Some(bound_table(self.keyword_source(), self.binding.unwrap()))
        } else {
            None
        }
    }

    /// The shape of the compiled unit.
    pub open spec fn compiled_shape(self) -> ShapeModel {
        match self.value_kind {
            ValueKindModel::Keyword { .. } => ShapeModel::Keyword {
                table: self.declared_table(),
                map: self.compiled_map(),
            },
            ValueKindModel::Predefined { primitive, parser, default } => ShapeModel::Predefined {
                primitive: type_named(primitive).unwrap(),
                parser: parser_named(parser.unwrap()).unwrap(),
                default: literal_value(
                    type_named(primitive).unwrap(),
                    parser_named(parser.unwrap()).unwrap(),
                    default.unwrap(),
                )->Ok_0,
            },
            ValueKindModel::Custom(unit) => ShapeModel::Custom { unit, map: self.compiled_map() },
        }
    }

    /// The unit that the descriptor compiles to, where it is valid.
    pub open spec fn compiled(self) -> LonghandModel {
        LonghandModel {
            name: self.name,
            aliases: self.aliases,
            products: self.products,
            shape: self.compiled_shape(),
            animation_type: self.animation_type,
            inherited: self.inherited,
            field_name: match self.binding {
                Some(b) => Some(b.field_name),
                None => None,
            },
        }
    }
}

/// A descriptor that is refused with an error is not valid, and a
/// descriptor is refused with one error at most.
pub proof fn law_refusal_is_determined(d: DescriptorModel, e1: SchemaError, e2: SchemaError)
    requires
        d.refused_with(e1),
    ensures
        !d.valid(),
        d.refused_with(e2) ==> e1 == e2,
{
    if d.wants_map() {
        let t = bound_table(d.keyword_source(), d.binding.unwrap());
        assert(t.links == crate::backend::links_of(
            d.keyword_source().rows,
            d.binding.unwrap().prefix.unwrap(),
        ));
    }
}

#[derive(Debug)]
enum Shape {
    Keyword { keywords: KeywordEnum, map: Option<BackendMap> },
    Predefined { primitive: PrimitiveType, parser: PrimitiveParser, default: SpecifiedValue },
    Custom { unit: CustomUnit, map: Option<BackendMap> },
}

/// The model of a backend map that may be absent.
spec fn map_model(map: Option<BackendMap>) -> Option<BackendTable> {
    match map {
        Some(m) => Some(m@),
        None => None,
    }
}

impl View for Shape {
    type V = ShapeModel;

    closed spec fn view(&self) -> ShapeModel {
        match self {
            Shape::Keyword { keywords, map } => ShapeModel::Keyword {
                table: keywords@,
                map: map_model(*map),
            },
            Shape::Predefined { primitive, parser, default } => ShapeModel::Predefined {
                primitive: *primitive,
                parser: *parser,
                default: *default,
            },
            Shape::Custom { unit, map } => ShapeModel::Custom { unit: *unit, map: map_model(*map) },
        }
    }
}

/// One compiled property: its names, its classification and the shape of
/// its value.
#[derive(Debug)]
pub struct Longhand {
    name: String,
    aliases: Vec<String>,
    products: Products,
    shape: Shape,
    animation_type: AnimationType,
    inherited: bool,
    field_name: Option<String>,
}

impl View for Longhand {
    type V = LonghandModel;

    closed spec fn view(&self) -> LonghandModel {
        LonghandModel {
            name: self.name@,
            aliases: crate::descriptor::texts_of(self.aliases@),
            products: self.products,
            shape: self.shape@,
            animation_type: self.animation_type,
            inherited: self.inherited,
            field_name: match self.field_name {
                Some(f) => Some(f@),
                None => None,
            },
        }
    }
}

/// Binds a keyword table to the backend where the descriptor asks for it.
fn bind_if_wanted(
    keywords: &KeywordEnum,
    products: Products,
    binding: &Option<BackendBinding>,
    wanted: bool,
) -> (r: Result<Option<BackendMap>, BindingError>)
    ensures
        match r {
            Ok(m) => {
                &&& map_model(m) == (if wanted && products.bound && binding is Some {
                    Some(bound_table(keywords@, binding.unwrap()@))
                } else {
                    None
                })
                &&& wanted && products.bound && binding is Some ==> bindable(
                    keywords@,
                    binding.unwrap()@,
                )
            },
            Err(e) => {
                &&& wanted && products.bound && binding is Some
                &&& binding_refused_with(keywords@.rows, binding.unwrap()@.prefix, e)
                &&& !bindable(keywords@, binding.unwrap()@)
            },
        },
{
    if !wanted || !products.bound {
        return Ok(None);
    }
    match binding {
        None => Ok(None),
        Some(b) => match BackendMap::bind(keywords, b) {
            Ok(m) => Ok(Some(m)),
            Err(e) => Err(e),
        },
    }
}

impl Longhand {
    /// Compiles a descriptor. A descriptor is accepted exactly when it is
    /// valid; otherwise the error says which check it failed first.
    pub fn compile(d: PropertyDescriptor) -> (r: Result<Longhand, SchemaError>)
        ensures
            r is Ok <==> d@.valid(),
            match r {
                Ok(l) => l@ == d@.compiled(),
                Err(e) => d@.refused_with(e),
            },
    {
        let ghost dm = d@;
        let PropertyDescriptor {
            name,
            aliases,
            products,
            value_kind,
            animation_type,
            inherited,
            binding,
            spec: _,
        } = d;
        if products.bound && binding.is_none() {
            return Err(SchemaError::MissingBinding);
        }
        let inexhaustive: bool = match &binding {
            Some(b) => b.inexhaustive,
            None => false,
        };
        let shape: Shape = match value_kind {
            ValueKind::Keyword { entries, initial } => {
                match KeywordEnum::compile(entries, initial, inexhaustive) {
                    Err(k) => {
                        return Err(SchemaError::Keyword(k));
                    },
                    Ok(keywords) => match bind_if_wanted(&keywords, products, &binding, true) {
                        Err(b) => {
                            return Err(SchemaError::Binding(b));
                        },
                        Ok(map) => Shape::Keyword { keywords, map },
                    },
                }
            },
            ValueKind::Predefined { primitive, parser, default } => {
                let ty: PrimitiveType = match PrimitiveType::named(primitive.as_str()) {
                    None => {
                        return Err(SchemaError::UnknownPrimitive);
                    },
                    Some(t) => t,
                };
                let parser_name: String = match parser {
                    None => {
                        return Err(SchemaError::MissingParser);
                    },
                    Some(p) => p,
                };
                let p: PrimitiveParser = match PrimitiveParser::named(parser_name.as_str()) {
                    None => {
                        return Err(SchemaError::UnknownParser);
                    },
                    Some(p) => p,
                };
                let literal: String = match default {
                    None => {
                        return Err(SchemaError::MissingDefault);
                    },
                    Some(l) => l,
                };
                match parse_literal(ty, p, literal.as_str()) {
                    Err(_) => {
                        return Err(SchemaError::InvalidDefault);
                    },
                    Ok(v) => Shape::Predefined { primitive: ty, parser: p, default: v },
                }
            },
            ValueKind::Custom(unit) => {
                let keywords: KeywordEnum = match unit {
                    CustomUnit::BoxOrient => box_orient::keyword_enum(),
                };
                let wanted: bool = match &binding {
                    Some(b) => b.prefix.is_some(),
                    None => false,
                };
                match bind_if_wanted(&keywords, products, &binding, wanted) {
                    Err(b) => {
                        return Err(SchemaError::Binding(b));
                    },
                    Ok(map) => Shape::Custom { unit, map },
                }
            },
        };
        let field_name: Option<String> = match &binding {
            Some(b) => Some(b.field_name.clone()),
            None => None,
        };
        Ok(Longhand { name, aliases, products, shape, animation_type, inherited, field_name })
    }
}

/// How the computed value of a property derives from its specified value.
#[derive(Clone, Copy, Debug, PartialEq, Eq, Structural)]
pub enum Derivation {
    /// The computed value is the specified value, whatever the context.
    Identity,
    /// The variant `defer` stands for the value of the surroundings: it
    /// computes to the inherited value, or to the initial value where
    /// nothing is inherited. Every other value computes to itself.
    Contextual { defer: u32 },
}

/// What the cascade knows when it computes a value.
#[derive(Clone, Copy, Debug, PartialEq, Eq, Structural)]
pub struct CascadeContext {
    /// The computed value of the same property on the parent, if any.
    pub inherited: Option<ComputedValue>,
}

/// The computed value of a specified value under a derivation.
pub open spec fn derived(
    derivation: Derivation,
    specified: SpecifiedValue,
    initial: ComputedValue,
    context: CascadeContext,
) -> ComputedValue {
    match derivation {
        Derivation::Identity => specified,
        Derivation::Contextual { defer } => if specified == SpecifiedValue::Keyword(
            KeywordValue::Variant(defer),
        ) {
            match context.inherited {
                Some(v) => v,
                None => initial,
            }
        } else {
            specified
        },
    }
}

/// Computes a value under a derivation.
pub fn derive_computed(
    derivation: Derivation,
    specified: SpecifiedValue,
    initial: ComputedValue,
    context: &CascadeContext,
) -> (r: ComputedValue)
    ensures
        r == derived(derivation, specified, initial, *context),
{
    match derivation {
        Derivation::Identity => specified,
        Derivation::Contextual { defer } => {
            let defers: bool = match specified {
                SpecifiedValue::Keyword(KeywordValue::Variant(v)) => v == defer,
                _ => false,
            };
            if defers {
                match context.inherited {
                    Some(v) => v,
                    None => initial,
                }
            } else {
                specified
            }
        },
    }
}

/// A value has no text: it is the passthrough value, or a value of
/// another property.
#[derive(Clone, Copy, Debug, PartialEq, Eq, Structural)]
pub enum SerializeError {
    NoText,
}

impl LonghandModel {
    /// The derivation of the computed value. Every shape defined here
    /// computes to the specified value.
    pub open spec fn derivation(self) -> Derivation {
        Derivation::Identity
    }

    /// The computed value of a specified value in a context.
    pub open spec fn computed(self, specified: SpecifiedValue, context: CascadeContext) -> ComputedValue {
        derived(self.derivation(), specified, self.shape.initial_value(), context)
    }

    /// Whether the cascade may interpolate values of the property.
    pub open spec fn animatable(self) -> bool {
        self.animation_type != AnimationType::NotAnimated
    }
}

impl Longhand {
    /// Parses the value of the property: consumes one token of the input.
    /// The context plays no part in the outcome.
    pub fn parse(&self, _context: &ParserContext, input: &mut TokenStream) -> (r: Result<
        SpecifiedValue,
        ParseError,
    >)
        ensures
            agrees(r, self@.shape.parse(old(input)@)),
            final(input)@ == rest(old(input)@),
    {
        match &self.shape {
            Shape::Keyword { keywords, .. } => match keywords.parse(input) {
                Ok(v) => Ok(SpecifiedValue::Keyword(v)),
                Err(e) => Err(e),
            },
            Shape::Predefined { primitive, parser, .. } => parse_primitive(
                *primitive,
                *parser,
                input,
            ),
            Shape::Custom { unit, .. } => match unit {
                CustomUnit::BoxOrient => match BoxOrientKeyword::parse_stream(input) {
                    Ok(k) => Ok(SpecifiedValue::Keyword(KeywordValue::Variant(k.variant()))),
                    Err(e) => Err(e),
                },
            },
        }
    }

    /// Parses the value of the property from the tokenizer's input, of
    /// which it consumes one token.
    pub fn parse_css(&self, context: &ParserContext, input: &mut cssparser::Parser) -> (r: Result<
        SpecifiedValue,
        ParseError,
    >)
        ensures
            agrees(r, self@.shape.parse(pending_tokens(*old(input)))),
            pending(*final(input)) == rest(pending(*old(input))),
    {
        let mut stream: TokenStream = next_as_stream(input);
        self.parse(context, &mut stream)
    }

    /// The initial value of the property, in computed form.
    pub fn initial_value(&self) -> (r: ComputedValue)
        ensures
            r == self@.shape.initial_value(),
    {
        match &self.shape {
            Shape::Keyword { keywords, .. } => SpecifiedValue::Keyword(keywords.initial_value()),
            Shape::Predefined { default, .. } => *default,
            Shape::Custom { unit, .. } => match unit {
                CustomUnit::BoxOrient => SpecifiedValue::Keyword(
                    KeywordValue::Variant(box_orient::get_initial_value().variant()),
                ),
            },
        }
    }

    /// The derivation of the computed value.
    pub fn derivation(&self) -> (r: Derivation)
        ensures
            r == self@.derivation(),
    {
        Derivation::Identity
    }

    /// The computed value of a specified value in a context.
    pub fn compute(&self, specified: SpecifiedValue, context: &CascadeContext) -> (r: ComputedValue)
        ensures
            r == self@.computed(specified, *context),
            r == specified,
    {
        derive_computed(self.derivation(), specified, self.initial_value(), context)
    }

    /// Appends the canonical text of a value to `dest`. A value without
    /// text leaves `dest` as it was.
    pub fn to_text(&self, value: SpecifiedValue, dest: &mut String) -> (r: Result<
        (),
        SerializeError,
    >)
        ensures
            match self@.shape.text_of(value) {
                Some(text) => r is Ok && final(dest)@ == old(dest)@ + text,
                None => r is Err && final(dest)@ == old(dest)@,
            },
    {
        let text: Option<String> = match &self.shape {
            Shape::Keyword { keywords, .. } => match value {
                SpecifiedValue::Keyword(v) => keywords.to_text(v),
                _ => None,
            },
            Shape::Predefined { primitive, .. } => match (primitive, value) {
                (PrimitiveType::Number, SpecifiedValue::Number(d)) => Some(d.to_text()),
                (PrimitiveType::Integer, SpecifiedValue::Integer(v)) => Some(
                    decimal_from_integer(v).to_text(),
                ),
                _ => None,
            },
            Shape::Custom { unit, .. } => match unit {
                CustomUnit::BoxOrient => match value {
                    SpecifiedValue::Keyword(KeywordValue::Variant(v)) => match BoxOrientKeyword::from_variant(
                        v,
                    ) {
                        Some(k) => Some(k.to_css()),
                        None => None,
                    },
                    _ => None,
                },
            },
        };
        match text {
            Some(t) => {
                dest.append(t.as_str());
                Ok(())
            },
            None => Err(SerializeError::NoText),
        }
    }
}

impl ShapeModel {
    /// The backend map of the shape, where it has one.
    pub open spec fn map(self) -> Option<BackendTable> {
        match self {
            ShapeModel::Keyword { map, .. } => map,
            ShapeModel::Predefined { .. } => None,
            ShapeModel::Custom { map, .. } => map,
        }
    }

    /// The identifier by which the backend knows a value.
    pub open spec fn identifier_of(self, value: SpecifiedValue) -> Option<Seq<char>> {
        match (self.map(), value) {
            (Some(m), SpecifiedValue::Keyword(v)) => m.identifier_of(v),
            _ => None,
        }
    }

    /// The value that the backend reports by an identifier.
    pub open spec fn value_of(self, identifier: Seq<char>) -> Option<ComputedValue> {
        match self.map() {
            Some(m) => match m.value_of(identifier) {
                Some(v) => Some(SpecifiedValue::Keyword(v)),
                None => None,
            },
            None => None,
        }
    }

    /// The keyword table of the shape, where its values are keywords.
    pub open spec fn keywords(self) -> Option<KeywordTable> {
        match self {
            ShapeModel::Keyword { table, .. } => Some(table),
            ShapeModel::Predefined { .. } => None,
            ShapeModel::Custom { unit: CustomUnit::BoxOrient, .. } => Some(box_orient::table()),
        }
    }

    /// The invariant of a compiled shape: its keyword table is well
    /// formed, its backend map is one to one, and its default is a value
    /// that its parser admits.
    pub open spec fn well_formed(self) -> bool {
        &&& self.keywords() matches Some(t) ==> t.well_formed()
        &&& self.map() matches Some(m) ==> m.well_formed()
        &&& self matches ShapeModel::Predefined { primitive, parser, default } ==> admitted(
            primitive,
            parser,
            default,
        )
    }

    /// The token that spells a value in text: an identifier for a
    /// keyword, a number for a number. A value without text has none.
    pub open spec fn token_of(self, value: SpecifiedValue) -> Option<TokenModel> {
        match self.text_of(value) {
            Some(text) => match value {
                SpecifiedValue::Keyword(_) => Some(TokenModel::Ident(text)),
                SpecifiedValue::Number(d) => Some(TokenModel::Number(d)),
                SpecifiedValue::Integer(v) => Some(TokenModel::Number(decimal_of_integer(v))),
            },
            None => None,
        }
    }
}

/// The value is one that the parser of the type yields for some number token.
pub open spec fn admitted(ty: PrimitiveType, parser: PrimitiveParser, value: SpecifiedValue) -> bool {
    exists|d: Decimal| #[trigger]
        crate::primitive::parse_primitive_token(ty, parser, TokenModel::Number(d)) == Result::<
            SpecifiedValue,
            ParseFailure,
        >::Ok(value)
}

impl Longhand {
    /// The canonical name.
    pub fn name(&self) -> (r: &str)
        ensures
            r@ == self@.name,
    {
        self.name.as_str()
    }

    /// The number of aliases.
    pub fn alias_count(&self) -> (r: usize)
        ensures
            r == self@.aliases.len(),
    {
        self.aliases.len()
    }

    /// The alias at `index`, in declaration order.
    pub fn alias(&self, index: usize) -> (r: &str)
        requires
            index < self@.aliases.len(),
        ensures
            r@ == self@.aliases[index as int],
    {
        self.aliases[index].as_str()
    }

    /// The backends that the property applies to.
    pub fn products(&self) -> (r: Products)
        ensures
            r == self@.products,
    {
        self.products
    }

    /// How the cascade may interpolate the property.
    pub fn animation_type(&self) -> (r: AnimationType)
        ensures
            r == self@.animation_type,
    {
        self.animation_type
    }

    /// Whether the cascade may interpolate values of the property.
    pub fn is_animatable(&self) -> (r: bool)
        ensures
            r == self@.animatable(),
    {
        match self.animation_type {
            AnimationType::NotAnimated => false,
            _ => true,
        }
    }

    /// Whether the property belongs to the inherited properties.
    pub fn is_inherited(&self) -> (r: bool)
        ensures
            r == self@.inherited,
    {
        self.inherited
    }

    /// The name of the storage field in the bound backend.
    pub fn field_name(&self) -> (r: Option<&str>)
        ensures
            match r {
                Some(f) => self@.field_name == Some(f@),
                None => self@.field_name is None,
            },
    {
        match &self.field_name {
            Some(f) => Some(f.as_str()),
            None => None,
        }
    }

    /// The identifier by which the backend knows a value, if it has one.
    pub fn to_backend(&self, value: SpecifiedValue) -> (r: Option<String>)
        ensures
            match r {
                Some(s) => self@.shape.identifier_of(value) == Some(s@),
                None => self@.shape.identifier_of(value) is None,
            },
    {
        let map: &Option<BackendMap> = match &self.shape {
            Shape::Keyword { map, .. } => map,
            Shape::Custom { map, .. } => map,
            Shape::Predefined { .. } => {
                return None;
            },
        };
        match (map, value) {
            (Some(m), SpecifiedValue::Keyword(v)) => m.to_backend(v),
            _ => None,
        }
    }

    /// The value that the backend reports by an identifier. This is the
    /// only source of the passthrough value.
    pub fn from_backend(&self, identifier: &str) -> (r: Option<ComputedValue>)
        ensures
            r == self@.shape.value_of(identifier@),
    {
        let map: &Option<BackendMap> = match &self.shape {
            Shape::Keyword { map, .. } => map,
            Shape::Custom { map, .. } => map,
            Shape::Predefined { .. } => {
                return None;
            },
        };
        match map {
            Some(m) => match m.from_backend(identifier) {
                Some(v) => Some(SpecifiedValue::Keyword(v)),
                None => None,
            },
            None => None,
        }
    }
}

/// A valid descriptor compiles to a unit whose shape is well formed.
pub proof fn law_compiled_is_well_formed(d: DescriptorModel)
    requires
        d.valid(),
    ensures
        d.compiled().shape.well_formed(),
{
    let shape = d.compiled().shape;
    box_orient::lemma_table_well_formed();
    if d.wants_map() {
        let source = d.keyword_source();
        let t = bound_table(source, d.binding.unwrap());
        assert forall|i: int, j: int| 0 <= i < j < t.links.len() implies (
        #[trigger] t.links[i]).variant != (#[trigger] t.links[j]).variant by {
            if source.rows[i].variant == source.rows[j].variant {
                assert(crate::keyword::variant_clash_at(source.rows, j));
            }
        }
    }
    if let ValueKindModel::Predefined { primitive, parser, default } = d.value_kind {
        let ty = type_named(primitive).unwrap();
        let p = parser_named(parser.unwrap()).unwrap();
        let tokens = first_token_of_text(default.unwrap());
        let value = literal_value(ty, p, default.unwrap())->Ok_0;
        assert(tokens.len() > 0);
        let t = tokens[0];
        assert(t is Number);
        assert(crate::primitive::parse_primitive_token(ty, p, TokenModel::Number(t->Number_0))
            == Result::<SpecifiedValue, ParseFailure>::Ok(value));
    }
}

/// For a predefined property, the initial value is the computed value of
/// what the declared parser makes of the default literal.
pub proof fn law_initial_value_is_parsed_default(d: DescriptorModel, context: CascadeContext)
    requires
        d.valid(),
        d.value_kind is Predefined,
    ensures
        d.compiled().shape.parse(first_token_of_text(d.value_kind->default.unwrap())) is Ok,
        d.compiled().computed(
            d.compiled().shape.parse(first_token_of_text(d.value_kind->default.unwrap()))->Ok_0,
            context,
        ) == d.compiled().shape.initial_value(),
{
}

/// Whatever a unit parses, it can serialize, and the token that the
/// text spells parses to the same value again. The text of a number is
/// the canonical text of the number that the token holds.
pub proof fn law_value_round_trip(shape: ShapeModel, input: Seq<TokenModel>)
    requires
        shape.well_formed(),
        shape.parse(input) is Ok,
    ensures
        shape.text_of(shape.parse(input)->Ok_0) is Some,
        shape.token_of(shape.parse(input)->Ok_0) is Some,
        shape.parse(seq![shape.token_of(shape.parse(input)->Ok_0).unwrap()]) == shape.parse(input),
        shape.token_of(shape.parse(input)->Ok_0).unwrap() matches TokenModel::Number(d)
            ==> crate::number::lex_decimal(shape.text_of(shape.parse(input)->Ok_0).unwrap())
            == Some(d),
{
    let value = shape.parse(input)->Ok_0;
    match shape {
        ShapeModel::Keyword { table, .. } => {
            let ident = input[0]->Ident_0;
            crate::keyword::lemma_first_token_match(table.rows, ident, 0);
            let i = crate::keyword::first_token_match(table.rows, ident, 0).unwrap();
            let variant = table.rows[i].variant;
            assert(table.declares(variant));
            crate::keyword::law_variant_round_trip(table, variant);
        },
        ShapeModel::Predefined { primitive, parser, .. } => {
            let d = input[0]->Number_0;
            match primitive {
                PrimitiveType::Number => {
                    crate::number::law_decimal_round_trip(d);
                },
                PrimitiveType::Integer => {
                    let v = value->Integer_0;
                    crate::number::law_decimal_round_trip(decimal_of_integer(v));
                },
            }
        },
        ShapeModel::Custom { unit: CustomUnit::BoxOrient, .. } => {
            let k = box_orient::parse_tokens(input)->Ok_0;
            box_orient::law_keyword_round_trip(k);
        },
    }
}

/// No input parses to the passthrough value. It is a value of the
/// property exactly where the backend reports it: by an identifier that
/// no variant has, in a map that is inexhaustive.
pub proof fn law_passthrough_only_from_backend(
    shape: ShapeModel,
    input: Seq<TokenModel>,
    identifier: Seq<char>,
)
    ensures
        shape.parse(input) != Result::<SpecifiedValue, ParseFailure>::Ok(
            SpecifiedValue::Keyword(KeywordValue::Passthrough),
        ),
        shape.text_of(SpecifiedValue::Keyword(KeywordValue::Passthrough)) is None,
        shape.value_of(identifier) == Some(SpecifiedValue::Keyword(KeywordValue::Passthrough))
            ==> shape.map() is Some && shape.map().unwrap().inexhaustive,
{
    if let Some(m) = shape.map() {
        crate::backend::law_passthrough_from_backend(m, identifier);
    }
}

} // verus!
