[package]
name = "buildc"
version = "0.1.0"
edition = "2021"
publish = false

[dependencies]
md5 = "*"
fs_extra = "*"
glob = "*"
serde_json = "*"
serde_yaml = "*"
