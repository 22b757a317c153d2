[package]
name = "ksat"
version = "0.1.0"
edition = "2021"

[dependencies]
clap = { version = "4", features = ["derive"] }
itertools = "0.13"
plotters = "0.3"
rand = "0.8"
slugify = "0.1"
