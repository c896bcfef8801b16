[package]
name = "thermite"
version = "0.1.0"
edition = "2021"
publish = false

[dependencies]
getopts = "0.2"
log = "0.3"
num = { version = "0.1", default-features = false }
rand = "0.3"
time = "0.1"
