[package]
name = "tracesheet"
version = "0.1.0"
edition = "2021"
publish = false

[dependencies]
anyhow = "1"
serde_json = "1"
reqwest = { version = "*", default-features = false, features = ["blocking"] }
rust_xlsxwriter = "*"
