[package]
name = "timer_kit"
version = "0.1.0"
edition = "2021"
publish = false

[dependencies]
futures-util = "*"
pin-project-lite = "*"
