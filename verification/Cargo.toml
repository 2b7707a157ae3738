[package]
name = "codemap_diagnostic"
version = "0.1.0"
edition = "2021"
publish = false
