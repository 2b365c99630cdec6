[package]
name = "stream_delimit"
version = "0.1.0"
edition = "2021"
publish = false

[dependencies]
kafka = { version = "*", default-features = false }
