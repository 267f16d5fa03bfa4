[package]
name = "lace"
version = "0.1.0"
edition = "2021"
publish = false

[dependencies]
anyhow = "1"
log = "0.4"
mdbook = { version = "0.4", default-features = false }
pulldown-cmark = { version = "0.9", default-features = false }
serde = { version = "1", features = ["derive"] }
