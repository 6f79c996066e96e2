[package]
name = "marxml"
version = "0.1.4"
edition = "2021"
publish = false

[dependencies]
regex = "1"
serde_json = "1"
serde-saphyr = "*"
napi = "3"
napi-derive = "3"
thiserror = "2"
