[package]
name = "style_properties"
version = "0.1.0"
edition = "2021"
publish = false

[dependencies]
cssparser = "*"
