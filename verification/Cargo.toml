[package]
name = "machinegen"
version = "0.1.0"
edition = "2021"
publish = false

[dependencies]
clap = "3.2"
colored = "2"
config = { version = "0.13", default-features = false, features = ["json5"] }
csv = "1"
serde = { version = "1", features = ["derive"] }
