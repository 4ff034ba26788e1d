[package]
name = "dedup"
version = "0.1.0"
edition = "2021"
publish = false

[dependencies]
clap-verbosity-flag = "0.3"
crossbeam = "0.8"
data-encoding = "2"
env_logger = "0.7"
log = "0.4"
ring = "0.17"
rusqlite = "0.31"
structopt = "0.3"
tempfile = "3"
walkdir = "2"
