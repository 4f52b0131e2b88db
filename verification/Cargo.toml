[package]
name = "scroll"
version = "0.1.0"
edition = "2021"
publish = false

[dependencies]
byte = "0.2"
memmap = "0.5"
proc-macro2 = "1"
quote = "1"
syn = "2"
