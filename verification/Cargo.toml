[package]
name = "bench_uring"
version = "0.1.0"
edition = "2021"
publish = false

[dependencies]
rand = "=0.9.5"
serde = { version = "=1.0.229", features = ["derive"] }
csv = "=1.4.0"
eyre = "=0.6.14"
tracing = "=0.1.44"
tokio = { version = "=1.54.1", features = ["full"] }
monoio = "=0.2.4"
tokio-uring = "=0.5.0"
lazy-regex = "3"
