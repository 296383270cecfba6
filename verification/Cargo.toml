[package]
name = "dnssector"
version = "0.2.0"
edition = "2021"
publish = false

[dependencies]
byteorder = "1"
rand = "0.8"
libc = "0.2"
thiserror = "1"
