[package]
name = "pocket_kindle"
version = "0.1.0"
edition = "2021"
publish = false

[dependencies]
anyhow = "1"
log = "0.4"
env_logger = "0.11"
image = "0.25"
ureq = "2"
signal-hook = "0.3"
ab_glyph = "0.2"
