[package]
name = "deckpack"
version = "0.1.0"
edition = "2021"
publish = false

[dependencies]
tar = "*"
flate2 = "*"
uuid = { version = "*", features = ["v4"] }
