[package]
name = "xsd_parser"
version = "0.1.0"
edition = "2021"
publish = false

[dependencies]
quick-xml = { version = "=0.38.4", features = ["encoding"] }
tracing = "=0.1.44"
url = "=2.5.8"
