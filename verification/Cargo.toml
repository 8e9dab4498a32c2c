[package]
name = "link_dispatch"
version = "0.1.0"
edition = "2021"
publish = false

[dependencies]
anyhow = "1"
futures = "0.3"
tokio = { version = "1", features = ["macros", "process", "rt-multi-thread", "sync"] }
tracing = "0.1"
