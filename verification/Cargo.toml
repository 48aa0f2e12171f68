[package]
name = "conststr"
version = "0.1.0"
edition = "2021"
publish = false

[dependencies]
oct = "=0.22.0"
serde = "=1.0.229"
