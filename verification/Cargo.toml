[package]
name = "lct"
version = "0.2.0"
edition = "2021"
publish = false

[dependencies]
clap = "2"
termion = "1"
tui = "0.9"
