[package]
name = "stock_screener"
version = "0.1.0"
edition = "2021"
publish = false

[dependencies]
rusqlite = { version = "*", features = ["bundled"] }
pyo3 = "*"
log = "*"
env_logger = "*"
once_cell = "*"
