[package]
name = "epaper_todo"
version = "0.1.0"
edition = "2021"
publish = false

[dependencies]
epd-waveshare = "*"
embedded-graphics = "*"
embedded-hal = "*"
minreq = "*"
serde = { version = "*", features = ["derive"] }
serde_json = "*"
log = "*"
anyhow = "*"
