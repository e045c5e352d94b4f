[package]
name = "whidl"
version = "0.1.0"
edition = "2021"
publish = false

[dependencies]
bitvec = "=1.1.1"
rand = "0.8"
serde = { version = "1", features = ["derive"] }
quick-xml = { version = "0.31", features = ["serialize"] }
