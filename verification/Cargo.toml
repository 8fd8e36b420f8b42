[package]
name = "bgc"
version = "0.1.0"
edition = "2021"
publish = false

[dependencies]
serde = { version = "1", features = ["derive"] }
serde_json = "1"
ureq = "2"
rusqlite = { version = "0.31", features = ["bundled"] }
directories = "5"
gtk4 = "0.9"
gtk4-layer-shell = "0.4"
