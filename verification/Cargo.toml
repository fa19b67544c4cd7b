[package]
name = "xbpf"
version = "0.1.0"
edition = "2021"
publish = false

[dependencies]
tracing = "=0.1.44"
libbpf-rs = { version = "=0.27.2", default-features = false }
libbpf-cargo = { version = "=0.27.2", default-features = false }

[dev-dependencies]
tracing-subscriber = "=0.3.23"
