[package]
name = "nbtsniper"
version = "0.1.0"
edition = "2021"
publish = false

[dependencies]
byteorder = "1"
flate2 = "1"
log = "0.4"
serde = { version = "1", features = ["derive"] }
serde_json = "1"
thiserror = "1"
