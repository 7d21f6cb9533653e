[package]
name = "djson"
version = "0.1.0"
edition = "2021"
publish = false

[dependencies]
miette = { version = "7", features = ["fancy"] }
serde = "1"
thiserror = "2"

[dev-dependencies]
bumpalo = "3"
