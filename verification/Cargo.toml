[package]
name = "binpack_to_h5"
version = "0.1.0"
edition = "2021"
publish = false

[dependencies]
sfbinpack = "*"
hdf5-metno = "*"
anyhow = "*"
clap = { version = "4", features = ["derive"] }
crossbeam-channel = "*"
indicatif = "*"
num_cpus = "*"
