[package]
name = "vox_box"
version = "0.1.0"
edition = "2021"
publish = false

[dependencies]
libc = "0.2"
num = "0.4"
num-complex = "0.4"
rustfft = "6"
