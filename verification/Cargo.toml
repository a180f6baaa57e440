[package]
name = "changesets"
version = "0.1.0"
edition = "2021"
publish = false

[dependencies]
cargo_metadata = "=0.23.1"
clap = { version = "=4.6.7", features = ["derive"] }
dialoguer = "0.6"
enquirer = "=0.4.0"
eyre = "=0.6.14"
human_id = "=0.1.0"
indexmap = { version = "=2.14.2", features = ["serde"] }
serde_yaml = "=0.9.34"
