[package]
name = "icamp"
version = "0.1.0"
edition = "2021"
publish = false

[dependencies]
rand = "*"
rayon = "*"
clap = "*"
csv = "*"
serde = { version = "*", features = ["derive"] }
sysinfo = "*"
