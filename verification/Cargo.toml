[package]
name = "vexpr"
version = "0.1.0"
edition = "2021"

[dependencies]
logos = "0.12"
rustc_apfloat = "0.2"
