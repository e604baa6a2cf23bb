[package]
name = "tcp_reader"
version = "0.1.0"
edition = "2021"

[dependencies]
mio = "0.6"
