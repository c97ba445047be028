[package]
name = "synthfs"
version = "0.1.0"
edition = "2021"
publish = false

[dependencies]
async-trait = "0.1"
nfsserve = "*"
rodio = { version = "0.20", default-features = false, features = ["flac"] }
tokio = { version = "1", features = ["macros", "rt-multi-thread", "net"] }
tracing = "0.1"
tracing-subscriber = "0.3"
