[package]
name = "roku_remote"
version = "0.1.0"
edition = "2021"
publish = false

[dependencies]
eframe = { version = "0.27", default-features = false, features = ["default_fonts", "glow"] }
html-escape = "=0.2.15"
reqwest = { version = "=0.11.27", default-features = false, features = ["blocking"] }
url = "=2.5.8"

[dev-dependencies]
regex = "=1.13.1"
