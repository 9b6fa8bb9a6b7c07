[package]
name = "keryx-core"
version = "0.1.0"
edition = "2021"
publish = false

[dependencies]
prost = "0.14"
prost-reflect = "0.16"
prost-types = "0.14"
protox = "0.9"
serde_json = "1"
