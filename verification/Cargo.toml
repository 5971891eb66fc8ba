[package]
name = "smdiff"
version = "0.1.0"
edition = "2021"
publish = false

[dependencies]
ruzstd = "*"
brotlic = "*"
zstd = "*"
blake3 = "*"
colored = "*"
rand = "*"
vcdiff-common = "*"
vcdiff-reader = "*"
