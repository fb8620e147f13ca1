[package]
name = "json_syntax"
version = "0.1.0"
edition = "2021"
publish = false

[dependencies]
hashbrown = "0.14"
json-number = "0.4"
utf8-decode = "1"
