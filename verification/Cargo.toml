[package]
name = "acoustic_modem"
version = "0.1.0"
edition = "2021"

[dependencies]
cpal = "0.15"
rustfft = "6"
