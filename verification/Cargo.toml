[package]
name = "drupes"
version = "0.1.0"
edition = "2021"
publish = false

[dependencies]
anyhow = "*"
blake3 = "*"
clap = { version = "*", features = ["derive"] }
jwalk = "*"
rayon = "*"
size = "*"
