[package]
name = "sensor_link"
version = "0.1.0"
edition = "2021"
publish = false

[dependencies]
esp-idf-svc = "0.48"
log = "0.4"
