[package]
name = "matheriser"
version = "0.1.0"
edition = "2021"
publish = false

[dependencies]
structopt = "*"
colored = "*"
dialoguer = "*"

[dev-dependencies]
rand = "0.8"
