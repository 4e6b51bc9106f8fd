[package]
name = "gamlenorge"
version = "0.1.0"
edition = "2021"
publish = false

[dependencies]
chrono = "*"
configparser = "*"
crossbeam-channel = "*"
geomorph = "*"
image = "*"
indicatif = "*"
rand = "*"
sun = "*"
