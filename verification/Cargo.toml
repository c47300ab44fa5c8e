[package]
name = "collector"
version = "0.1.0"
edition = "2021"
publish = false

[dependencies]
async-trait = "0.1"
clap = "2"
lazy_static = "1"
prost = "0.13"
tokio = { version = "1", features = ["macros", "rt", "rt-multi-thread"] }
tonic = "0.12"
