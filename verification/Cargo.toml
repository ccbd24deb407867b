[package]
name = "clap"
version = "0.1.0"
edition = "2021"
publish = false

[dependencies]
textwrap = "0.11"
unicode-width = "0.1"
vec_map = "0.8"
