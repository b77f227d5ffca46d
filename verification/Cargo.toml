[package]
name = "enrich"
version = "0.1.0"
edition = "2021"
publish = false

[dependencies]
num = "*"
uuid = "*"
async-lock = "*"
futures = "*"
rayon = "*"

[dev-dependencies]
adjustp = "*"
