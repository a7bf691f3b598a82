[package]
name = "tiny_packer"
version = "0.1.0"
edition = "2021"
publish = false

[dependencies]
image = "*"
base64 = "*"
clap = { version = "*", features = ["derive"] }
