[package]
name = "visual_asm"
version = "0.1.0"
edition = "2021"
publish = false

[dependencies]
druid = "0.8"
kurbo = "0.9"
