[package]
name = "dumbsync"
version = "0.1.0"
edition = "2021"
publish = false

[dependencies]
blake3 = "1"
pathdiff = "0.2"
rayon = "1"
structopt = "0.3"
ureq = { version = "1", default-features = false }
url = "2"
walkdir = "2"
