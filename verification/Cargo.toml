[package]
name = "pokemon_icat"
version = "0.1.0"
edition = "2021"
publish = false

[dependencies]
clap = { version = "=4.6.7", features = ["derive"] }
csv = "=1.4.0"
home = "=0.5.12"
rand = "=0.10.3"
serde = { version = "=1.0.229", features = ["derive"] }
viuer = { version = "=0.11.0", features = ["print-file"] }
