[package]
name = "persistent_storage"
version = "0.1.0"
edition = "2021"
publish = false

[dependencies]
tonic = "=0.10.2"
prost = "=0.12.6"
tokio = { version = "=1.53.2", features = ["macros", "rt-multi-thread", "sync", "time"] }
http = "=0.2.12"
