[package]
name = "md_viewer"
version = "0.1.0"
edition = "2021"
publish = false

[dependencies]
comrak = { version = "=0.59.0", default-features = false }
typed-arena = "=2.0.2"
