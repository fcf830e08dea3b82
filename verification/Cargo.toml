[package]
name = "work_tracker"
version = "0.1.0"
edition = "2021"
publish = false

[dependencies]
chrono = "=0.4.45"
clap = { version = "=4.6.7", features = ["derive"] }
color-eyre = "=0.6.5"
colored = "=3.1.1"
eyre = "=0.6.14"
home = "=0.5.12"
