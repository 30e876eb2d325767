[package]
name = "dragon_curve"
version = "0.1.0"
edition = "2021"
publish = false

[dependencies]
getopts = "0.2"
turtle = "1.0.0-rc.3"
