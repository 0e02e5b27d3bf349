[package]
name = "rgssad"
version = "0.1.2"
edition = "2021"

[dependencies]
regex = "1"
