[package]
name = "proyecto_opencv"
version = "0.1.0"
edition = "2021"
publish = false

[dependencies]
opencv = { version = "0.93", features = ["videoio", "imgproc", "highgui"] }
