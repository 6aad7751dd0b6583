[package]
name = "atlast"
version = "0.1.0"
edition = "2021"
publish = false

[dependencies]
png = "*"
zip = { version = "*", default-features = false }
clap = "*"
walkdir = "*"

[dev-dependencies]
bincode = "1"
