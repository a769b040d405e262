[package]
name = "othello"
version = "0.1.0"
edition = "2021"
publish = false

[dependencies]
clap = "2"
gio = "0.9"
gtk = "0.9"
