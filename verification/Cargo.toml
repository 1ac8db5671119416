[package]
name = "nixui_core"
version = "0.1.0"
edition = "2021"
publish = false

[dependencies]
nix-editor = "0.3.0"
feather-macro = "0.2.0"
im = "15.1.0"
ultraviolet = "0.10.0"
