[package]
name = "cp_rust"
version = "0.1.0"
edition = "2021"
publish = false

[dependencies]
anyhow = "=1.0.104"
num = "=0.4.3"

[dev-dependencies]
rand = "0.8"
