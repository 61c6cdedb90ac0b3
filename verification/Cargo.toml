[package]
name = "asm_lookup"
version = "0.1.0"
edition = "2021"
publish = false

[dependencies]
edit-distance = "*"
log = "*"
walkdir = "*"
