[package]
name = "hts_connector"
version = "0.1.0"
edition = "2021"
publish = false

[dependencies]
influxdb = "*"
tokio = { version = "*", features = ["rt-multi-thread"] }
envconfig = "*"
serde = { version = "*", features = ["derive"] }
