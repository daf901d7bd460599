[package]
name = "phf_chd"
version = "0.1.0"
edition = "2021"
publish = false

[dependencies]
ahash = { version = "0.8", default-features = false }
hashbrown = "0.14"
num-traits = { version = "0.2", default-features = false }
rand = { version = "0.8", default-features = false, features = ["small_rng"] }
usize_cast = "1"
