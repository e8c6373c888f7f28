[package]
name = "durascan"
version = "0.1.0"
edition = "2021"
publish = false

[dependencies]
glob = "0.3"
tokio = { version = "1", features = ["rt", "fs"] }
futures = "0.3"
nix = { version = "=0.29.0", features = ["fs"] }
