[package]
name = "sux"
version = "0.1.0"
edition = "2021"
publish = false

[dependencies]
anyhow = "1"
bytemuck = "1"
clap = { version = "4", features = ["derive"] }
common_traits = "*"
epserde = "*"
mem_dbg = "*"
mmap-rs = "*"
rayon = "1"

[dev-dependencies]
rand = { version = "0.8", features = ["small_rng"] }
