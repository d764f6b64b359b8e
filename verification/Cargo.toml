[package]
name = "tide-fluent-routes"
version = "0.1.0"
edition = "2021"
publish = false

[dependencies]
tide = { version = "0.16", default-features = false }

[dev-dependencies]
async-std = "1"
