[package]
name = "webgen_files"
version = "0.1.0"
edition = "2021"
publish = false

[dependencies]
serde = { version = "1", features = ["derive"] }
serde_json = "1"
libc = "0.2"
gtk4 = "0.9"
libadwaita = "0.7"
