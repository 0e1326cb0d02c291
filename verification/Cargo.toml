[package]
name = "sfw_tools"
version = "0.1.0"
edition = "2021"
publish = false

[dependencies]
seahorse = "*"
