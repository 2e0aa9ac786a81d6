[package]
name = "breach_protocol"
version = "0.1.0"
edition = "2021"
publish = false

[dependencies]
bmp = "0.5"
clipboard-win = "4"
winapi = { version = "0.3", features = ["winuser", "minwindef"] }
winput = "0.2"
