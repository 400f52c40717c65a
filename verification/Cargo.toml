[package]
name = "potato"
version = "0.1.0"
edition = "2021"
publish = false

[dependencies]
clap = "2"
memchr = "2"
mio = "0.6"
mio-uds = "0.6"
nix = "0.13"
serde = { version = "1", features = ["derive"] }
serde_json = "1"
slog = "2"
slog-journald = "2"
slog-term = "2"
