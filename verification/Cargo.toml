[package]
name = "btd"
version = "0.1.0"
edition = "2021"
publish = false

[dependencies]
anyhow = "1"
btrfs-uapi = "*"
crossbeam-channel = "0.5"
crossterm = "0.28"
rand = "0.8"
ratatui = "0.29"
uuid = "1"
