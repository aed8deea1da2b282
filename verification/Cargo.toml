[package]
name = "docsearch"
version = "0.1.0"
edition = "2021"
publish = false

[dependencies]
fsst-rs = "=0.7.0"
fst = { version = "=0.4.7", features = ["levenshtein"] }
postcard = { version = "=1.1.3", features = ["alloc"] }
rake = "=0.3.6"
serde = { version = "=1.0.229", features = ["derive"] }
