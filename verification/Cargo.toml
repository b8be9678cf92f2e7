[package]
name = "turing_smart_screen"
version = "0.1.0"
edition = "2021"
publish = false

[dependencies]
serde = { version = "1", features = ["derive"] }
serde_yaml = "0.9"
serde_json = "1"
chrono = "0.4"
image = { version = "0.25", default-features = false, features = ["png"] }
serialport = { version = "4", default-features = false }
sysinfo = "0.30"
minreq = "2"
nvml-wrapper = "0.10"
ab_glyph = "0.2"
ctrlc = "3"
log = "0.4"
