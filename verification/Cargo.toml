[package]
name = "genpass"
version = "0.1.0"
edition = "2021"
publish = false

[dependencies]
clap = { version = "4", features = ["cargo"] }
rand = "0.9"
thiserror = "2"
