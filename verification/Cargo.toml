[package]
name = "blksocks"
version = "0.1.0"
edition = "2021"
publish = false

[dependencies]
time = "0.3"
tokio = { version = "1", features = ["full"] }
nix = { version = "*", features = ["socket", "net"] }
toml = "*"
serde = { version = "1", features = ["derive"] }
serde_derive = "1"
flexi_logger = "*"
log = "0.4"
