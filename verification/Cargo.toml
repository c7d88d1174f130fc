[package]
name = "compiler2"
version = "0.1.0"
edition = "2021"
publish = false

[dependencies]
petgraph = "0.6"
logos = "0.12"
clap = "2"
serde = { version = "1", features = ["derive"] }
serde_json = "1"
log = "0.4"
simple_logger = "1"
