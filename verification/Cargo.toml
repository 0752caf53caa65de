[package]
name = "furi_clean"
version = "0.1.0"
edition = "2021"
publish = false

[dependencies]
clipboard-master = "*"
clipboard-win = "*"
