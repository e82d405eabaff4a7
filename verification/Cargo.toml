[package]
name = "ovit_tools"
version = "0.1.0"
edition = "2021"
publish = false

[dependencies]
chrono = "0.4"
prettytable-rs = "0.10"
regex = "1"
