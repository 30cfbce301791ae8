[package]
name = "maketorrent"
version = "0.1.0"
edition = "2021"
publish = false

[dependencies]
bip_metainfo = "*"
clap = "2"
num_cpus = "1"
pbr = "1"
