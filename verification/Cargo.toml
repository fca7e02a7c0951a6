[package]
name = "obscura"
version = "0.1.0"
edition = "2021"
publish = false

[dependencies]
url = "=2.5.8"
clap = { version = "=4.6.7", features = ["derive"] }
sha1 = "0.10"
sha2 = "0.10"
hmac = "0.12"
aes = "0.8"
aes-gcm = "0.10"
cbc = { version = "0.1", features = ["alloc"] }
ctr = "0.9"
pbkdf2 = "0.12"
hkdf = "0.12"
getrandom = "0.2"
flate2 = "1"
psl = "2"
