[package]
name = "zzz_codec"
version = "0.1.0"
edition = "2021"
publish = false

[dependencies]
ruzzzt = "*"
serde = "1"
