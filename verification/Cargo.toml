[package]
name = "diffview"
version = "0.1.0"
edition = "2021"
publish = false

[dependencies]
anyhow = "1"
crossterm = "0.28"
memchr = "2"
ratatui = "0.29"
unicode-width = "0.2"
