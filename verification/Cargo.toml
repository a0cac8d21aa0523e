[package]
name = "vapor"
version = "0.1.0"
edition = "2021"
publish = false

[dependencies]
gtk4 = "*"
libadwaita = "*"
keyvalues-serde = "*"
serde = { version = "1", features = ["derive"] }
serde_json = "1"
