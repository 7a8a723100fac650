[package]
name = "miniconf"
version = "0.1.0"
edition = "2021"
publish = false

[dependencies]
minimq = "=0.13.3"
log = "=0.4.34"

[dev-dependencies]
serde-json-core = "*"
