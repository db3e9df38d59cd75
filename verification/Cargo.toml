[package]
name = "cave_diver"
version = "0.1.0"
edition = "2021"
publish = false

[dependencies]
crossterm = "*"
rand = "*"
textwrap = "*"
