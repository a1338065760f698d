[package]
name = "edit_checkpoint"
version = "0.1.0"
edition = "2021"
publish = false

[dependencies]
serde_json = "1"
tempfile = "3"

[dev-dependencies]
tar = "0.4"
