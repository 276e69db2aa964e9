[package]
name = "grouse"
version = "0.1.0"
edition = "2021"
publish = false

[dependencies]
sha2 = "0.10"
mime_guess = "2"
walkdir = "2"
syn = "2"
quote = "1"
proc-macro2 = "1"
proc-macro-crate = "3"
