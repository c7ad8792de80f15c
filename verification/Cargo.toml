[package]
name = "duplex_talk"
version = "0.1.0"
edition = "2021"
publish = false

[dependencies]
byteorder = "1"
regex = "1"
colored = "2"
tokio = { version = "1", features = ["full"] }
clap = "2"
glob = "0.3"
