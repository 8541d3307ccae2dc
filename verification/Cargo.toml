[package]
name = "svg2gerber"
version = "0.1.0"
edition = "2021"
publish = false

[dependencies]
lyon = "*"
usvg = "*"
gerber-types = "*"
conv = "*"
log = "*"
env_logger = "*"
