[package]
name = "typst_studio"
version = "0.1.0"
edition = "2021"
publish = false

[dependencies]
base64 = "=0.22.1"
serde = { version = "=1.0.229", features = ["derive"] }
serde_json = "=1.0.154"
typst-syntax = "=0.13.1"
ecow = "=0.2.6"
typst = "=0.13.1"
typst-as-lib = { version = "=0.14.4", features = ["typst-kit-fonts", "typst-kit-embed-fonts"] }
typst-svg = "=0.13.1"
typst-pdf = "=0.13.1"
