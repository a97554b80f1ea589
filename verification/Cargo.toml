[package]
name = "tockloader-lib"
version = "0.1.0"
edition = "2021"
publish = false

[dependencies]
utf8-decode = "1"
byteorder = "1"
probe-rs = { version = "*", default-features = false }
