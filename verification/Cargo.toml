[package]
name = "taquin"
version = "0.1.0"
edition = "2021"
publish = false

[dependencies]
priority-queue = "2"
rand = "0.8"
