[package]
name = "finddups"
version = "0.1.0"
edition = "2021"

[dependencies]
clap = { version = "4", features = ["derive"] }
rayon = "1"
sha2 = "0.10"
