[package]
name = "xhtml_parser"
version = "0.2.10"
edition = "2021"
publish = false

[dependencies]
kmp = "*"
memchr = { version = "2", default-features = false }
