[package]
name = "structfs"
version = "0.1.0"
edition = "2021"
publish = false

[dependencies]
namecode = "*"
unicode-ident = "1"
bytes = "1"
serde = { version = "1", features = ["derive"] }
serde_json = "1"
thiserror = "*"
tokio = { version = "1", features = ["sync", "rt", "rt-multi-thread", "macros", "time"] }
url = "2"
async-trait = "0.1"
erased-serde = "*"
http = "1"
reqwest = { version = "0.12", default-features = false, features = ["blocking", "json"] }
