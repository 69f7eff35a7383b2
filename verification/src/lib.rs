//! Declarative descriptors for style properties, and the compiler that turns
//! them into parsers, initial values, computed values and serializers.

pub mod backend;
pub mod box_orient;
pub mod css;
pub mod descriptor;
pub mod keyword;
pub mod longhand;
pub mod number;
pub mod primitive;
pub mod registry;
pub mod style_struct;
pub mod text;
pub mod token;
pub mod value;
