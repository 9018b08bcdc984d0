[package]
name = "phf_generator"
version = "0.1.0"
edition = "2021"
publish = false

[dependencies]
siphasher = "=0.3.11"
rand = { version = "=0.8.8", features = ["small_rng"] }
bytesize = "=1.3.3"
unicase = "2"
