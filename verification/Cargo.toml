[package]
name = "potree"
version = "0.1.0"
edition = "2021"
publish = false

[dependencies]
slab = "0.4"
byteorder = "1"
brotli-decompressor = "*"
url = "2"
serde = { version = "1", features = ["derive"] }
serde_json = "1"
glam = "*"
thiserror = "*"
async-trait = "0.1"
tokio = { version = "1", features = ["fs", "io-util"] }
reqwest = { version = "*", default-features = false }
