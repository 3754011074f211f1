[package]
name = "rcore_fs"
version = "0.1.0"
edition = "2021"
publish = false

[dependencies]
bit-set = "0.5"
bitvec = "0.17"
libc = "0.2"
time = "0.1"
structopt = "0.3"
env_logger = "0.7"

[dev-dependencies]
tempfile = "3"
