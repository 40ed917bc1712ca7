[package]
name = "zharko"
version = "0.1.0"
edition = "2021"

[dependencies]
rand = "0.9"
indicatif = "0.17"
