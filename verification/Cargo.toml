[package]
name = "gen_tree_images"
version = "0.1.0"
edition = "2021"
publish = false

[dependencies]
clap = { version = "3.2", features = ["derive"] }
env_logger = "0.9"
glob = "0.3"
hdf5 = "0.8"
indicatif = "0.17"
log = "0.4"
ndarray = "0.15"
num-traits = "0.2"
