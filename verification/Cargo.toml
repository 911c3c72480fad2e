[package]
name = "typesize"
version = "0.1.0"
edition = "2021"
publish = false

[dependencies]
anyhow = "*"
magika = "*"
walkdir = "*"
