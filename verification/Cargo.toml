[package]
name = "windows_redirector"
version = "0.1.0"
edition = "2021"
publish = false

[dependencies]
anyhow = "1"
internet-packet = { version = "0.2.2", features = ["checksums"] }
log = "0.4"
lru_time_cache = "0.11.11"
pyo3 = { version = "0.25", features = ["abi3-py310"] }
tokio = { version = "1", features = ["macros", "rt", "rt-multi-thread", "sync"] }
windivert = "0.6.0"
