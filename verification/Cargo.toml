[package]
name = "defamed"
version = "0.1.0"
edition = "2021"
publish = false

[dependencies]
permute = "*"
proc-macro2 = "*"
quote = "*"
syn = { version = "*", features = ["full"] }
