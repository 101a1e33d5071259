[package]
name = "rcf"
version = "0.1.0"
edition = "2021"
publish = false

[dependencies]
fuzzy-matcher = "*"
crossbeam = "*"
termion = "*"
clipboard = "*"
