[package]
name = "utf8_scan"
version = "0.1.0"
edition = "2021"
publish = false

[dependencies]
chrono = "0.4"
radix_fmt = "1"
simdutf8 = "0.1"
time = "0.3"
unicode-ident = "1"
