[package]
name = "pos_distribution"
version = "0.1.0"
edition = "2021"
publish = false

[dependencies]
csv = "1"
lazy_static = "1"
libm = "0.2"
num-integer = "0.1"
num-rational = "0.4"
num-traits = "0.2"
rayon = "1"
serde = { version = "1", features = ["derive"] }
strum = { version = "*", features = ["derive"] }
