[package]
name = "lbp_math"
version = "0.1.0"
edition = "2021"
publish = false

[dependencies]
fixed = "=1.31.0"
primitive-types = "=0.8.0"
typenum = "=1.20.1"
