[package]
name = "tetris_rs"
version = "0.1.0"
edition = "2021"
publish = false

[dependencies]
rand = "0.8"
chrono = "0.4"
rusqlite = "*"
minifb = "*"
