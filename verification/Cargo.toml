[package]
name = "path_jail"
version = "0.1.0"
edition = "2021"
publish = false

[dev-dependencies]
rustix = { version = "=1.1.5", features = ["fs"] }
tempfile = "=3.27.0"
