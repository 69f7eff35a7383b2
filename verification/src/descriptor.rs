//! Property descriptors: what an author declares of one property.

use vstd::prelude::*;
use crate::backend::{BackendBinding, BindingModel};
use crate::keyword::{rows_of, KeywordEntry, Row};

verus! {

/// Whether, and how, the cascade may interpolate two computed values of a
/// property. It has no effect on parsing.
#[derive(Clone, Copy, Debug, PartialEq, Eq, Structural)]
pub enum AnimationType {
    /// Written `none`: the property is never interpolated.
    NotAnimated,
    /// Written `discrete`: the value flips from one to the other.
    Discrete,
    /// Written `normal`: the value is interpolated.
    Normal,
}

/// The set of backends that a property applies to: the native backend,
/// and the backend whose storage is owned elsewhere and bound by name.
#[derive(Clone, Copy, Debug, PartialEq, Eq, Structural)]
pub struct Products {
    pub native: bool,
    pub bound: bool,
}

/// A property whose parsing, initial value, serialization and computed
/// value are its own, written once for that property.
#[derive(Clone, Copy, Debug, PartialEq, Eq, Structural)]
pub enum CustomUnit {
    /// The axis along which a box lays out its children.
    BoxOrient,
}

/// The shape of a property's value, as a mathematical value.
pub enum ValueKindModel {
    Keyword { rows: Seq<Row>, initial: u32 },
    Predefined { primitive: Seq<char>, parser: Option<Seq<char>>, default: Option<Seq<char>> },
    Custom(CustomUnit),
}

/// The shape of a property's value.
#[derive(Clone, Debug)]
pub enum ValueKind {
    /// One of an ordered list of keywords; `initial` is the variant of the
    /// initial value.
    Keyword { entries: Vec<KeywordEntry>, initial: u32 },
    /// A primitive type, named, with the name of its parser and the
    /// literal of its default.
    Predefined { primitive: String, parser: Option<String>, default: Option<String> },
    /// A unit that describes itself.
    Custom(CustomUnit),
}

impl View for ValueKind {
    type V = ValueKindModel;

    open spec fn view(&self) -> ValueKindModel {
        match self {
            ValueKind::Keyword { entries, initial } => ValueKindModel::Keyword {
                rows: rows_of(entries@),
                initial: *initial,
            },
            ValueKind::Predefined { primitive, parser, default } => ValueKindModel::Predefined {
                primitive: primitive@,
                parser: match parser {
                    Some(p) => Some(p@),
                    None => None,
                },
                default: match default {
                    Some(d) => Some(d@),
                    None => None,
                },
            },
            ValueKind::Custom(unit) => ValueKindModel::Custom(*unit),
        }
    }
}

/// The texts of a list of strings.
pub open spec fn texts_of(names: Seq<String>) -> Seq<Seq<char>> {
    Seq::new(names.len(), |i: int| names[i]@)
}

/// A descriptor as a mathematical value.
pub struct DescriptorModel {
    pub name: Seq<char>,
    pub aliases: Seq<Seq<char>>,
    pub products: Products,
    pub value_kind: ValueKindModel,
    pub animation_type: AnimationType,
    pub inherited: bool,
    pub binding: Option<BindingModel>,
}

/// The complete declaration of one property.
#[derive(Clone, Debug)]
pub struct PropertyDescriptor {
    /// The canonical name.
    pub name: String,
    /// Other spellings under which the property is accepted.
    pub aliases: Vec<String>,
    /// The backends that the property applies to.
    pub products: Products,
    /// The shape of its value.
    pub value_kind: ValueKind,
    /// How the cascade may interpolate it.
    pub animation_type: AnimationType,
    /// Whether it belongs to the inherited properties.
    pub inherited: bool,
    /// The binding record, which a property for the bound backend needs.
    pub binding: Option<BackendBinding>,
    /// A pointer to documentation. It is carried along and never read.
    pub spec: String,
}

impl View for PropertyDescriptor {
    type V = DescriptorModel;

    open spec fn view(&self) -> DescriptorModel {
        DescriptorModel {
            name: self.name@,
            aliases: texts_of(self.aliases@),
            products: self.products,
            value_kind: self.value_kind@,
            animation_type: self.animation_type,
            inherited: self.inherited,
            binding: match self.binding {
                Some(b) => Some(b@),
                None => None,
            },
        }
    }
}

} // verus!
