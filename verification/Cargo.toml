[package]
name = "fdeflate"
version = "0.1.0"
edition = "2021"
publish = false

[dependencies]
simd-adler32 = "0.3.4"

[dev-dependencies]
miniz_oxide = "0.6.2"
rand = "0.8.5"
