[package]
name = "colorls"
version = "0.1.0"
edition = "2021"
publish = false

[dependencies]
clap = "2"
num-iter = "0.1"
serde = "1"
serde_yaml = "0.8"
termion = "1.5"
unicode-segmentation = "1"
