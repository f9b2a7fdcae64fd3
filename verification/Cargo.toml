[package]
name = "minirt"
version = "0.1.0"
edition = "2021"
publish = false

[dependencies]
libc = "0.2"
polling = "3"
socket2 = "0.5"
