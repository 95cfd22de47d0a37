[package]
name = "kit"
version = "0.1.0"
edition = "2021"
publish = false

[dependencies]
anyhow = "*"
nu-ansi-term = "*"
unicode-width = "*"
