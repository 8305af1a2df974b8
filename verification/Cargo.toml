[package]
name = "stfg"
version = "0.1.0"
edition = "2021"

[dependencies]
base64 = "0.22"
ragit-cli = "*"
ragit-fs = "*"
rusqlite = "*"
