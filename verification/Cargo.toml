[package]
name = "qvd"
version = "0.1.0"
edition = "2021"
publish = false

[dependencies]
quick-xml = { version = "*", features = ["serialize"] }
regex = "*"
serde = { version = "*", features = ["derive"] }
