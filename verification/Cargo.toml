[package]
name = "samegame_sfc"
version = "0.1.0"
edition = "2021"
publish = false

[dependencies]
anyhow = "1"
arrayvec = "0.7"
log = "0.4"
parse_int = "*"
