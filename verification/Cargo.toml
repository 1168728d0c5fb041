[package]
name = "nimi"
version = "0.1.0"
edition = "2021"
publish = false

[dependencies]
eyre = "*"
futures = "*"
log = "*"
nix = { version = "*", features = ["signal", "process"] }
serde = { version = "*", features = ["derive"] }
shellexpand = "*"
thiserror = "*"
tokio = { version = "*", features = ["fs", "macros", "process", "rt", "signal", "sync", "time"] }
tokio-util = "*"
