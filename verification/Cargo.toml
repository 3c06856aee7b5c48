[package]
name = "siteinfo_extract"
version = "0.1.0"
edition = "2021"
publish = false

[dependencies]
regex-syntax = "0.6"
