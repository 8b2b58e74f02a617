[package]
name = "osm4routing"
version = "0.1.0"
edition = "2021"
publish = false

[dependencies]
clap = { version = "*", features = ["derive"] }
csv = "*"
osmpbfreader = "*"
serde = { version = "*", features = ["derive"] }
serde_json = "*"
