[package]
name = "inspect_core"
version = "0.1.0"
edition = "2021"
publish = false

[dependencies]
sem-core = "=0.25.0"
git2 = "0.20"
tempfile = "3"
thiserror = "2"
