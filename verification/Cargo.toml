[package]
name = "drain_rs"
version = "0.1.0"
edition = "2021"
publish = false

[dependencies]
grok = "*"
clap = "2"
serde_json = "1"
