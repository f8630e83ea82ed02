[package]
name = "comic_reader"
version = "0.1.0"
edition = "2021"
publish = false

[dependencies]
zip = { version = "*", default-features = false, features = ["deflate"] }
base64 = "*"
percent-encoding = "*"
serde = { version = "1", features = ["derive"] }
tar = "*"
sevenz-rust = "*"

[dev-dependencies]
regex = "1"
