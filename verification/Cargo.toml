[package]
name = "abfs"
version = "0.1.0"
edition = "2021"
publish = false

[dependencies]
rand = { version = "0.9", features = ["small_rng"] }
rand_chacha = "0.9"
rayon = "1"
anyhow = "1"
chrono = "0.4"
ctrlc = "3"
hex = "0.4"
plotters = "0.3"
