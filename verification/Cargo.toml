[package]
name = "shrinky_rs"
version = "0.1.0"
edition = "2021"
publish = false

[dependencies]
image = { version = "*", default-features = false, features = ["jpeg", "png", "webp"] }
libheif-rs = "*"
rayon = "*"
clap = { version = "*", features = ["derive"] }
log = "*"
stderrlog = "*"
