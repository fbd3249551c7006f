[package]
name = "media_client"
version = "0.1.0"
edition = "2021"
publish = false

[dependencies]
base64 = "0.22"
colored = "2"
crossbeam-channel = "0.5"
html_parser = "0.7"
image = { version = "0.25", default-features = false, features = ["jpeg"] }
log = "0.4"
webbrowser = "1"
