[package]
name = "pace26io"
version = "0.1.0"
edition = "2021"
publish = false

[dependencies]
serde_json = "*"

[dev-dependencies]
rand = "*"
rand_pcg = "*"
