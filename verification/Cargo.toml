[package]
name = "pdf_pages"
version = "0.1.0"
edition = "2021"
publish = false

[dependencies]
lopdf = "0.34"
tokio = { version = "1", features = ["sync"] }
