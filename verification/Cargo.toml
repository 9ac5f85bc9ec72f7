[package]
name = "apogee"
version = "0.1.0"
edition = "2021"
publish = false

[dependencies]
flate2 = "1"
hifitime = "4"
metron = "*"
nalgebra = "0.33"
serde = { version = "1", features = ["derive"] }
thiserror = "2"
