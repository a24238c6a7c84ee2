[package]
name = "rivulet"
version = "0.1.0"
edition = "2021"
publish = false

[dependencies]
tokio = { version = "1", default-features = false, features = ["sync"] }
slice-deque = "0.3"
futures = "0.3"
pin-project = "1"
async-trait = "0.1"
