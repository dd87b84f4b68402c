[package]
name = "frob_adventure"
version = "0.1.0"
edition = "2021"
publish = false

[dependencies]
cod = { version = "=6.1.5", features = ["input"] }
dirs = "=7.0.0"
rand = "=0.8.8"
serde = { version = "=1.0.229", features = ["derive"] }
serde_json = "=1.0.154"
zstd = "=0.14.3"
