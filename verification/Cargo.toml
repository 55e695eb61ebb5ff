[package]
name = "fixed_record"
version = "0.1.0"
edition = "2021"
publish = false

[dependencies]
heck = "0.5"
