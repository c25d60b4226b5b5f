[package]
name = "dns_features"
version = "0.1.0"
edition = "2021"
publish = false

[dependencies]
bincode = "=1.3.3"
clap = "=2.34.0"
counter = "=0.5.7"
csv = "=1.4.0"
dialoguer = "=0.10.4"
fast-float = "=0.2.0"
flate2 = "=1.1.10"
indicatif = "0.17"
linecount = "=0.1.0"
linereader = "=0.4.0"
num-format = "=0.4.4"
psl = "=2.1.245"
rayon = "=1.12.0"
serde = { version = "=1.0.229", features = ["derive"] }
