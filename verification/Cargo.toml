[package]
name = "snapatac2-core"
version = "0.1.0"
edition = "2021"
publish = false

[dependencies]
anyhow = "=1.0.104"
bed-utils = "=0.2.1"
flate2 = "=1.1.10"
indicatif = "=0.17.11"
itertools = "=0.10.5"
linfa = "=0.7.1"
linfa-clustering = "=0.7.1"
linreg = "=0.2.0"
nalgebra-sparse = "=0.12.0"
ndarray = "=0.15.6"
rand_core = "=0.6.4"
rand_isaac = "=0.3.0"
rayon = "=1.12.0"
zstd = { version = "=0.14.3", features = ["zstdmt"] }
