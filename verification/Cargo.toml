[package]
name = "pfs_archive"
version = "0.1.0"
edition = "2021"
publish = false

[dependencies]
sha1 = "*"
clap = { version = "*", features = ["derive"] }
walkdir = "*"
rayon = "*"
