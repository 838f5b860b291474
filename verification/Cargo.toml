[package]
name = "bulls_and_cows"
version = "0.1.0"
edition = "2021"
publish = false

[dependencies]
num = { version = "0.4", default-features = false }
rand = "0.7"
