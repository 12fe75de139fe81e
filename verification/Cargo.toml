[package]
name = "dsdenc"
version = "0.1.0"
edition = "2021"
publish = false

[dependencies]
getopts = "=0.2.24"
hound = "=3.5.1"
num = "=0.4.3"
rustfft = "=6.4.1"
