[package]
name = "pa_types"
version = "0.1.0"
edition = "2021"
publish = false

[dependencies]
derive_more = "0.99"
itertools = "0.12"
serde = { version = "1", features = ["derive"] }
