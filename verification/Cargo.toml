[package]
name = "disk_destroyer"
version = "0.1.0"
edition = "2021"
publish = false

[dependencies]
shellexpand = "*"
getopts = "*"
signal-hook = "*"
