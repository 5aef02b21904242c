[package]
name = "path_tracer"
version = "0.1.0"
edition = "2021"
publish = false

[dependencies]
argparse = "0.2"
image = { version = "0.25", default-features = false, features = ["png"] }
num_cpus = "1"
rand = "0.4"
threadpool = "1"
