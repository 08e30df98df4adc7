[package]
name = "face-auth-core"
version = "0.1.0"
edition = "2021"
publish = false
rust-version = "1.95"

[dependencies]
anyhow = "1"
byteorder = "1"
clap = { version = "4", features = ["derive"] }
config = { version = "0.14", default-features = false, features = ["toml"] }
dirs = "5"
image = { version = "0.25", default-features = false, features = ["jpeg", "png"] }
kstring = "=2.0.2"
libc = "0.2"
nix = { version = "0.29", features = ["fs"] }
serde = { version = "1", features = ["derive"] }
tracing = "0.1"
tracing-subscriber = { version = "0.3", features = ["env-filter"] }
tract-onnx = "0.21"
