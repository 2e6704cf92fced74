[package]
name = "vocrab"
version = "0.1.0"
edition = "2021"
publish = false

[dependencies]
clap = { version = "4", features = ["derive"] }
nu-ansi-term = "0.50"
rand = "0.8"
serde = { version = "1", features = ["derive"] }
serde_cbor = "0.11"
terminal_size = "0.4"
