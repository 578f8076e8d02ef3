[package]
name = "keyboard_remap"
version = "1.0.0"
edition = "2021"
publish = false

[dependencies]
clap = "2"
log = "0.3"
regex = "1"
