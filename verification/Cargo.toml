[package]
name = "wgsl_inspect"
version = "0.1.0"
edition = "2021"
publish = false

[dependencies]
naga = { version = "*", features = ["wgsl-in"] }
serde = { version = "1", features = ["derive"] }
