[package]
name = "dzip"
version = "0.5.1"
edition = "2021"
publish = false

[dependencies]
rayon = "1"
serde = { version = "1", features = ["derive"] }
