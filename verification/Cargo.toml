[package]
name = "acquire"
version = "0.1.0"
edition = "2021"
publish = false

[dependencies]
rand = "=0.8.8"
serde = "=1.0.229"
serde_derive = "=1.0.229"
