[package]
name = "xxl_container"
version = "0.1.0"
edition = "2021"
publish = false

[dependencies]
bincode = "1"
serde = "1"
byteorder = "1"
