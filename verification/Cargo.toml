[package]
name = "rsv"
version = "0.1.0"
edition = "2021"
publish = false

[dependencies]
ahash = "0.8"
calamine = "*"
chrono = "0.4"
clap = { version = "4", features = ["derive"] }
crossbeam-channel = "0.5"
dashmap = "5"
rand = "0.8"
rayon = "1"
regex = "1"
tabled = "0.10"
xlsxwriter = "*"
