[package]
name = "number_loom"
version = "0.1.0"
edition = "2021"
publish = false

[dependencies]
ndarray = "*"
anyhow = "*"
clap = { version = "*", features = ["derive"] }
serde = { version = "*", features = ["derive"] }
serde_json = "*"
base64 = "*"
brotli = "*"
colored = "*"
image = { version = "*", default-features = false, features = ["png", "bmp", "gif"] }
tokio = { version = "*", features = ["rt"] }
mnemonic = "*"
roxmltree = "*"
