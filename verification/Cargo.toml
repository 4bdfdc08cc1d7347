[package]
name = "tetris_ai"
version = "0.1.0"
edition = "2021"
publish = false

[dependencies]
rand = "=0.8.8"
serde = { version = "=1.0.229", features = ["derive"] }
serde_json = "=1.0.154"
rand_distr = "0.4"
ctrlc = "3"
byteorder = "1"
base65536 = "1"
