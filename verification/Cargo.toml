[package]
name = "mio_child_process"
version = "0.1.0"
edition = "2021"
publish = false

[dependencies]
mio = "0.6"
mio-extras = "2"
libc = "0.2"
