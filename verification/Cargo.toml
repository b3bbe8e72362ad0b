[package]
name = "rustradio"
version = "0.1.0"
edition = "2021"
publish = false

[dependencies]
anyhow = "1"
log = "0.4"
num = "0.4"
rustfft = "6"
