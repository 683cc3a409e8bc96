[package]
name = "vid"
version = "0.1.0"
edition = "2021"
publish = false

[dependencies]
slotmap = "1"
string-interner = "0.17"
unicode-xid = "0.2"
semver = { version = "1", features = ["serde"] }
serde = { version = "1", features = ["derive"] }
toml = "0.8"
clap = { version = "4", features = ["derive"] }
