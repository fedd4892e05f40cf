[package]
name = "glasscannon"
version = "0.1.0"
edition = "2021"
publish = false

[dependencies]
url = "*"
toml = "*"
log = "*"
fern = "*"
chrono = "*"
tokio = { version = "*", features = ["net", "io-util", "fs", "rt", "rt-multi-thread", "macros"] }
