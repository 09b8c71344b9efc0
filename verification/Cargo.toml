[package]
name = "dns_server"
version = "0.1.0"
edition = "2021"
publish = false

[dependencies]
bytes = "1"
dns-message-parser = "*"
geoutils = "*"
ipgeolocate = "*"
reqwest = { version = "0.11", default-features = false }
tokio = { version = "1", features = ["full"] }
