[package]
name = "qubit-codec-misc"
version = "0.1.0"
edition = "2021"
publish = false

[dependencies]
base64 = "0.22"
percent-encoding = "2"
thiserror = "2"
qubit-codec = "*"

[dev-dependencies]
form_urlencoded = "1"
