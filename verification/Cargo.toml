[package]
name = "signal_game"
version = "0.1.0"
edition = "2021"
publish = false

[dependencies]
rand = { version = "*", features = ["small_rng"] }
smallvec = "1"
serde = { version = "1", features = ["derive"] }
serde_json = "1"
