[package]
name = "unfrag"
version = "0.1.0"
edition = "2021"
publish = false

[dependencies]
getopts = "*"
log = "*"
env_logger = "*"
