[package]
name = "hn_decypher"
version = "0.1.0"
edition = "2021"
publish = false

[dependencies]
roxmltree = "*"
thiserror = "*"
clap = { version = "4", features = ["derive"] }
