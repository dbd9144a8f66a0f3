[package]
name = "file_tree"
version = "0.1.0"
edition = "2021"
publish = false

[dependencies]
paw = "1.0"
structopt = { version = "0.3", features = ["paw"] }
