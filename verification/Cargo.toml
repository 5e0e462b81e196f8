[package]
name = "sling"
version = "0.2.0"
edition = "2021"
publish = false

[dependencies]
crossbeam-utils = "0.8"
arbitrary = { version = "1", features = ["derive"] }
libfuzzer-sys = "0.4"
