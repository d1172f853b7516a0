[package]
name = "fluent"
version = "0.1.0"
edition = "2021"
publish = false

[dependencies]
intl_pluralrules = "7"
unic-langid = "0.9"
type-map = "*"
futures = "0.3"
once_cell = "1"
async-trait = "0.1"
serde = { version = "1", features = ["derive"] }
