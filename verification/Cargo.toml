[package]
name = "livi"
version = "0.1.0"
edition = "2021"
publish = false

[dependencies]
flate2 = "1"
futures-util = "0.3"
libc = "0.2"
md-5 = "0.10"
nusb = { version = "0.2", features = ["tokio"] }
serde = { version = "1", features = ["derive"] }
serde_json = "1"
tokio = { version = "1", features = ["full"] }
ureq = { version = "2", features = ["json"], default-features = false }
