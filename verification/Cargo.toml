[package]
name = "topos_data_bridge"
version = "0.1.0"
edition = "2021"
publish = false

[dependencies]
serde_json = "1.0"
anyhow = "1.0"
