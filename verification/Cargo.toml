[package]
name = "gitbook_pages"
version = "0.1.0"
edition = "2021"
publish = false

[dependencies]
yaml-rust = "0.4.5"
comrak = { version = "0.17", default-features = false }
markdown = "1.0.0-alpha.13"
rocket = "0.5"
tokio = { version = "1", features = ["fs"] }
lazy_static = "1.4"
