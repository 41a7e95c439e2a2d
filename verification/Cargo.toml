[package]
name = "minips"
version = "0.1.0"
edition = "2021"
publish = false

[dependencies]
rand = "0.8"
clap = "2"
goblin = "0.8"
color-eyre = "0.6"
