[package]
name = "psdm"
version = "0.1.0"
edition = "2021"
publish = false

[dependencies]
anyhow = "=1.0.104"
clap = { version = "=4.6.7", features = ["derive"] }
env_logger = "=0.11.11"
log = "=0.4.34"
ndarray = "=0.17.2"
niffler = "=3.0.1"
noodles-fasta = "=0.67.0"
rayon = "=1.12.0"
