[package]
name = "cbzcheck"
version = "0.1.0"
edition = "2021"
publish = false

[dependencies]
kuchiki = "0.8"
url = "2"
imagesize = "*"
kamadak-exif = "*"
ureq = { version = "2", features = ["json"] }
zip = "0.6"
serde = { version = "1", features = ["derive"] }
termcolor = "1"
anyhow = "1"
