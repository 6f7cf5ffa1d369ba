[package]
name = "kboot"
version = "0.1.0"
edition = "2021"
publish = false

[dependencies]
anyhow = "*"
bootloader = "*"
bootloader-boot-config = "*"
git2 = "*"
log = "*"
simple-logging = "*"
toml = "*"
uuid = { version = "*", features = ["v4"] }
webbrowser = "*"
