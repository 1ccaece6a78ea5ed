[package]
name = "spout"
version = "0.1.0"
edition = "2021"
publish = false

[dependencies]
url = "2"
getrandom = "0.3"
hex = "0.4"
mime_guess = "2"
serde_json = "1"
reqwest = { version = "0.12", default-features = false, features = ["blocking", "multipart", "rustls-tls"] }
knuffel = "3"
directories = "6"
