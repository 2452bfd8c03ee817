[package]
name = "lean_checker"
version = "0.1.0"
edition = "2021"
publish = false

[dependencies]
lean-sys = "*"
num-bigint = "0.4"
palc = "*"
tracing = "0.1"
tracing-subscriber = { version = "0.3", features = ["env-filter"] }
