[package]
name = "des_usage"
version = "0.1.0"
edition = "2021"
publish = false

[dependencies]
des = "0.8"
cipher = "0.4"
anyhow = "1"
inquire = "0.7"
