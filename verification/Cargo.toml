[package]
name = "llama_node"
version = "0.1.0"
edition = "2021"
publish = false

[dependencies]
zstd = "0.12"
bincode = "1.3"
serde = { version = "1", features = ["derive"] }
rand = "0.8"
log = "0.4"
ndarray = "0.15"
num-traits = "0.2"
