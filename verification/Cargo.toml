[package]
name = "dtr_precompare"
version = "0.1.0"
edition = "2021"
publish = false

[dependencies]
regex = "1"
serde_json = "1"
rayon = "1"
walkdir = "2"
clap = { version = "4", features = ["derive"] }
