[package]
name = "variant_group_transformer"
version = "0.1.0"
edition = "2021"
publish = false

[dependencies]
classes = "*"
proc-macro2 = "1"
quote = "1"
regex = "1"
syn = { version = "2", features = ["full"] }
