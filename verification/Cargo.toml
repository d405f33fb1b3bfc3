[package]
name = "kladde"
version = "0.1.0"
edition = "2021"
publish = false

[dependencies]
caseless = "0.2"
clap = { version = "4", features = ["derive"] }
jiff = "0.2"
pulldown-cmark = { version = "0.13", default-features = false }
same-file = "1"
shell-words = "1"
thiserror = "2"
toml_edit = "0.22"
unicase = "2"
