[package]
name = "waverender"
version = "0.1.0"
edition = "2021"
publish = false

[dependencies]
image = "=0.25.10"
symphonia = "=0.5.5"
symphonia-core = "=0.5.5"
clap = { version = "=4.6.7", features = ["derive"] }
colored = "=3.1.1"
inquire = "=0.9.4"
