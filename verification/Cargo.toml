[package]
name = "exprcalc"
version = "0.1.0"
edition = "2021"
publish = false

[dependencies]
pest = "2"

[dev-dependencies]
float-cmp = "0.9"
