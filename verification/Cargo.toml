[package]
name = "keeper_raw"
version = "0.1.0"
edition = "2021"
publish = false

[dependencies]
image = { version = "0.25", default-features = false, features = ["jpeg", "png"] }
image_hasher = "*"
serde = { version = "1", features = ["derive"] }
serde_json = "1"
anyhow = "1"
thiserror = "*"
tracing = "0.1"
toml = "*"
dirs = "*"
ndarray = "0.17"
ort = { version = "2.0.0-rc.10", default-features = false, features = ["ndarray", "load-dynamic"] }
tauri = { version = "2", default-features = false }
