[package]
name = "xmip-core-contract-xml-schema"
version = "0.1.0"
edition = "2021"
publish = false

[dependencies]
roxmltree = "*"
