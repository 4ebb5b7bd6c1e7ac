[package]
name = "apex"
version = "0.1.0"
edition = "2021"
publish = false

[dependencies]
open = "5"
rust-embed = "8"
