[package]
name = "loken"
version = "0.1.0"
edition = "2021"
publish = false

[dependencies]
half = "2"
rayon = "1"
num_cpus = "1"
memmap2 = "0.9"
byteorder = "1"
serde = { version = "1", features = ["derive"] }
tracing = "0.1"
