[package]
name = "yamltree"
version = "0.1.0"
edition = "2021"
publish = false

[dependencies]
textwrap = "0.16"
serde_yaml = "0.9"
crossterm = "0.25"
tui = "0.19"
