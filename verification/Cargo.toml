[package]
name = "aero"
version = "0.1.0"
edition = "2021"
publish = false

[dependencies]
font8x8 = "=0.3.1"
anyhow = "=1.0.104"
clap = { version = "=4.6.7", features = ["derive"] }
image = { version = "0.25", default-features = false, features = ["png"] }
