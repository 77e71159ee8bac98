[package]
name = "lockout"
version = "0.1.0"
edition = "2021"

[dependencies]
lockout-hazard = "*"
