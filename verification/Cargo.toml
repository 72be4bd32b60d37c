[package]
name = "unpdf"
version = "0.1.0"
edition = "2021"
publish = false

[dependencies]
aes = "=0.9.4"
cbc = "=0.2.1"
flate2 = "=1.1.10"
md-5 = "=0.11.0"
rayon = "=1.12.0"
rc4 = "=0.2.0"
unparser-shared = { version = "=0.12.0", features = ["ai"] }
