[package]
name = "sppl"
version = "0.1.0"
edition = "2021"
publish = false

[dependencies]
brotli = "=9.1.1"
flate2 = "=1.1.10"
mime_guess = "=2.0.5"
rust-embed = "=8.13.0"
axum = "=0.7.9"
