[package]
name = "fqcn_rename"
version = "0.1.0"
edition = "2021"
publish = false

[dependencies]
crossterm = "0.25"
parking_lot = "0.12"
regex = "1"
ropey = "1"
serde_json = "1"
tui = "0.19"

[dev-dependencies]
itertools = "0.10"
