[package]
name = "kvs"
version = "0.1.0"
edition = "2021"
publish = false

[dependencies]
clap = "2"
structopt = "0.3"
crossbeam = "0.8"
log = "0.4"
env_logger = "0.8"
num_cpus = "1"
