[package]
name = "emucore"
version = "0.1.0"
edition = "2021"
publish = false

[dependencies]
miniz_oxide = "0.8"
encoding_rs = "0.8"
