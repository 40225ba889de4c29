[package]
name = "floresline_launcher"
version = "0.2.7"
edition = "2021"
publish = false

[dependencies]
meval = "0.2"
shlex = "1"
urlencoding = "2"
serde = { version = "1", features = ["derive"] }
serde_json = "1"
toml = "0.8"
gtk4 = { version = "0.9", features = ["v4_12"] }
