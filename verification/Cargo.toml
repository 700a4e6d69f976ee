[package]
name = "gossip"
version = "0.1.0"
edition = "2021"
publish = false

[dependencies]
csv = "1"
heck = "0.5"
human-sort = "*"
walkdir = "2"
