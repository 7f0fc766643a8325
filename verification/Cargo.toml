[package]
name = "aho_corasick_async"
version = "0.1.0"
edition = "2021"

[dependencies]
futures = "0.3"
pin-project-lite = "0.2"
