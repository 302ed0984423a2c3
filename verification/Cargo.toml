[package]
name = "cargo_vet"
version = "0.1.0"
edition = "2021"
publish = false

[dependencies]
cargo_metadata = "0.14"
clap = { version = "3", features = ["derive", "cargo"] }
clap-cargo = "0.8"
console = "0.15"
eyre = "0.6"
home = "0.5"
reqwest = { version = "0.11", default-features = false, features = ["blocking"] }
serde = { version = "1", features = ["derive"] }
serde_json = "1"
textwrap = "0.15"
tracing = "0.1"
tracing-subscriber = "0.3"
