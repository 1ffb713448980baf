[package]
name = "raymond"
version = "0.1.0"
edition = "2021"
publish = false

[dependencies]
crossbeam = "0.8"
num_cpus = "1"
rand = "0.8"
cgmath = { version = "0.18", features = ["serde"] }
serde = { version = "1", features = ["derive"] }
serde_json = "1"
ron = "0.8"
image = { version = "0.24", default-features = false, features = ["png"] }
structopt = "0.3"
