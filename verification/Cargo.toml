[package]
name = "dua"
version = "0.1.0"
edition = "2021"
publish = false

[dependencies]
petgraph = "*"
termion = "*"
failure = "*"
tui = { version = "*", default-features = false, features = ["termion"] }
