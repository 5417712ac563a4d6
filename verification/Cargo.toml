[package]
name = "rubtle_lib"
version = "0.1.0"
edition = "2021"
publish = false

[dependencies]
cesu8 = "1.1"
