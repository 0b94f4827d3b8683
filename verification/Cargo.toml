[package]
name = "heat_transit"
version = "0.1.0"
edition = "2021"
publish = false

[dependencies]
csv = "*"
png = "*"
rayon = "*"
serde = { version = "*", features = ["derive"] }
serde_json = "*"
