[package]
name = "peglog"
version = "0.1.0"
edition = "2021"
publish = false

[dependencies]
rowan = "0.10"
proc-macro2 = "1"
quote = "1"
