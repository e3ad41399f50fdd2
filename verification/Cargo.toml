[package]
name = "windit"
version = "0.3.0"
edition = "2021"
publish = false

[dependencies]
half = { version = "2", default-features = false }
serde = { version = "1", features = ["derive"] }

[dev-dependencies]
libm = "0.2"
