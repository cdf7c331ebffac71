[package]
name = "fractal"
version = "0.1.0"
edition = "2021"
publish = false

[dependencies]
image = { version = "0.24", default-features = false, features = ["png"] }
num-complex = "0.4"
num_cpus = "1"
structopt = "0.3"
