[package]
name = "tic_solved"
version = "0.1.0"
edition = "2021"
publish = false

[dependencies]
log = "*"
env_logger = "*"
dotenv = "*"
