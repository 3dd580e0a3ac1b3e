[package]
name = "logruster"
version = "0.1.0"
edition = "2021"
publish = false

[dependencies]
regex = "1"
fancy-regex = "0.13"
md-5 = "0.10"
csv = "1"
serde = { version = "1", features = ["derive"] }
polars = { version = "0.35", default-features = false }
