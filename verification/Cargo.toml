[package]
name = "tabnas_hoover"
version = "0.3.7"
edition = "2021"
publish = false

[dependencies]
serde_json = "1"
