[package]
name = "lisa_enumeration"
version = "0.1.0"
edition = "2021"
publish = false

[dependencies]
colored = "2"
env_logger = "0.9"
itertools = "0.10"
jemallocator = "0.3"
rayon = "1"
serde = { version = "1", features = ["derive"] }
serde_json = "1"
structopt = "0.3"
