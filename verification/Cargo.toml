[package]
name = "bril"
version = "0.1.0"
edition = "2021"
publish = false

[dependencies]
hibitset = { version = "=0.6.4", default-features = false }
fixedbitset = "=0.5.7"
serde_json = "=1.0.154"
clap = { version = "=4.6.7", features = ["derive"] }
rand = "=0.9.5"
rand_chacha = "=0.9.0"
rand_distr = "=0.5.1"
