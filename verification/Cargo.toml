[package]
name = "sketchlayer"
version = "0.1.0"
edition = "2021"
publish = false

[dependencies]
anyhow = "1"
cairo-rs = "0.20"
dirs = "5"
gdk4 = "0.9"
glib = "0.20"
gtk4 = "0.9"
gtk4-layer-shell = "0.4"
serde = { version = "1", features = ["derive"] }
serde_json = "1"
toml = "0.8"
tracing = "0.1"
tracing-appender = "0.2"
tracing-subscriber = "0.3"
