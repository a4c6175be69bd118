[package]
name = "graph_log"
version = "0.1.0"
edition = "2021"
publish = false

[dependencies]
tui = "0.13"
termion = "1.5"
