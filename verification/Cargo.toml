[package]
name = "rattler"
version = "0.1.0"
edition = "2021"
publish = false

[dependencies]
pubgrub = "=0.4.0"
url = { version = "=2.5.8", features = ["serde"] }
smallvec = { version = "*", features = ["serde"] }
serde = { version = "*", features = ["derive"] }
thiserror = "*"
regex = "*"
