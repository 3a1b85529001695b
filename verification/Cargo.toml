[package]
name = "negy"
version = "0.1.0"
edition = "2021"
publish = false

[dependencies]
openssl = "0.10"
rand = "0.8"
base64 = "0.13"
anyhow = "1"
clap = { version = "4", features = ["derive"] }
ctrlc = "3"
log = "0.4"
pretty_env_logger = "0.5"
reqwest = { version = "0.11", default-features = false, features = ["json"] }
serde = { version = "1", features = ["derive"] }
tokio = { version = "1", features = ["full"] }
warp = { version = "0.3", default-features = false }
