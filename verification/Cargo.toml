[package]
name = "theseus_rs"
version = "0.1.0"
edition = "2021"
publish = false

[dependencies]
clap = { version = "4", features = ["derive"] }
spinners = "4"
image = { version = "0.25", default-features = false, features = ["png", "bmp"] }
