[package]
name = "mileage"
version = "0.1.0"
edition = "2021"
publish = false

[dependencies]
indexmap = "2"
proc-macro2 = "1"
quote = "1"
rayon = "1"
