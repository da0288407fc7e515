[package]
name = "git_blame"
version = "0.1.0"
edition = "2021"
publish = false

[dependencies]
anyhow = "1"
log = "0.4"
smallvec = "1"

[dev-dependencies]
rand = "0.8"
