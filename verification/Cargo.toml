[package]
name = "viral32111_stomp"
version = "0.1.0"
edition = "2021"
publish = false

[dependencies]
env-file-reader = "*"
viral32111-xml = "*"
