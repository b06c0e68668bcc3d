[package]
name = "diacritics"
version = "0.1.0"
edition = "2021"
publish = false

[dependencies]
phf_shared = "0.11"
phf_generator = "0.11"
ureq = "2"
const_format = "0.2"
