[package]
name = "word_dictionary"
version = "0.1.0"
edition = "2021"
publish = false

[dependencies]
phf_codegen = "0.11"
rand = "0.8"
