[package]
name = "trs"
version = "0.1.0"
edition = "2021"
publish = false

[dependencies]
flate2 = "1"
tar = "0.4"
serde_json = "1"
clap = "4"
dirs = "*"
indicatif = "*"
