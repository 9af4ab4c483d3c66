[package]
name = "rusty_scrfd"
version = "0.1.0"
edition = "2021"
publish = false

[dependencies]
ndarray = "0.16"
opencv = { version = "0.94", default-features = false, features = ["imgproc", "imgcodecs"] }
ort = { version = "2.0.0-rc.10", default-features = false, features = ["std", "ndarray"] }
