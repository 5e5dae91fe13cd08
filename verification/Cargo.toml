[package]
name = "iso_ripper"
version = "0.1.0"
edition = "2021"
publish = false

[dependencies]
anyhow = "1"
cdfs = "*"
clap = { version = "4", features = ["derive"] }
rayon = "1"
time = { version = "0.3", features = ["formatting"] }
