[package]
name = "dre"
version = "0.1.0"
edition = "2021"
publish = false

[dependencies]
base64 = "*"
flate2 = "*"
fontdue = "*"
nix = { version = "*", features = ["term", "event", "fs", "signal", "poll"] }
quick-xml = { version = "*", features = ["serialize"] }
serde = { version = "*", features = ["derive"] }
