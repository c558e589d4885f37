[package]
name = "mips_vm"
version = "0.1.0"
edition = "2021"
publish = false

[dependencies]
clap = { version = "*", features = ["derive"] }
colorful = "*"
env_logger = "*"
log = "*"
