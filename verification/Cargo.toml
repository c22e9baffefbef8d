[package]
name = "fcu"
version = "0.1.0"
edition = "2021"
publish = false

[dependencies]
pathdiff = "0.2"
clap = { version = "4", features = ["derive"] }
colored = "2"
folder = "*"
pretty-bytes = "0.2"
rand = "0.8"
reqwest = { version = "0.12", default-features = false, features = ["blocking", "rustls-tls"] }
