[package]
name = "bruteforce"
version = "0.1.0"
edition = "2021"
publish = false

[dependencies]
bcrypt = "*"
md5 = "*"
rayon = "*"
clap = { version = "*", features = ["derive"] }
