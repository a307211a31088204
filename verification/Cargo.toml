[package]
name = "fuzzy_matcher"
version = "0.1.0"
edition = "2021"

[dependencies]
thread_local = "*"
