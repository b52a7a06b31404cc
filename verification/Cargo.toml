[package]
name = "anomstream-core"
version = "0.1.0"
edition = "2021"
publish = false

[dependencies]
serde = { version = "1", features = ["derive"] }

[dev-dependencies]
postcard = { version = "1", default-features = false, features = ["alloc"] }
