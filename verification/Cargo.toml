[package]
name = "robot_rust"
version = "0.1.0"
edition = "2021"
publish = false

[dependencies]
rand = "*"
noise = "*"
ratatui = "*"
crossterm = "*"
