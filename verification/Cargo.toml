[package]
name = "beans_xml"
version = "0.1.0"
edition = "2021"
publish = false

[dependencies]
quick-xml = "*"
encoding_rs = "0.8"
serde = { version = "1", features = ["derive"] }
serde_json = "1"
schemars = "0.8"
