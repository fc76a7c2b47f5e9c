[package]
name = "kicad_sexp"
version = "0.1.0"
edition = "2021"
publish = false

[dev-dependencies]
chumsky = "0.10"
