[package]
name = "parls"
version = "0.1.0"
edition = "2021"
publish = false

[dependencies]
anyhow = "*"
cpu-time = "*"
lazy_static = "*"
libc = "*"
num-format = "*"
num_cpus = "*"
regex = "*"
structopt = "*"
users = "*"
