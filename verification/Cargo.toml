[package]
name = "lumen-play"
version = "0.1.0"
edition = "2021"
publish = false

[dependencies]
sha2 = "0.10"
getrandom = "0.3"
rustls = { version = "0.23", default-features = false, features = ["ring", "std", "tls12", "logging"] }
rcgen = { version = "0.13", default-features = false, features = ["crypto", "ring"] }
time = "0.3"
fs4 = "0.13"
notify = "8"
interprocess = "2"
