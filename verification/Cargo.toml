[package]
name = "cairo_json_derive"
version = "0.1.0"
edition = "2021"
publish = false

[dependencies]
cairo-lang-macro = "0.1"
cairo-lang-parser = "*"
cairo-lang-syntax = "*"
