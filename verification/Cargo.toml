[package]
name = "posemir"
version = "0.1.0"
edition = "2021"
publish = false

[dependencies]
clap = { version = "3", default-features = false, features = ["std"] }
csv = "1"
hashers = "1"
serde_json = "1"
