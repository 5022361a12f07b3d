[package]
name = "omni_spacetimedb"
version = "0.1.0"
edition = "2021"
publish = false

[dependencies]
omnipaxos = { version = "=0.2.4", features = ["serde", "macros"] }
omnipaxos_storage = "=0.2.4"
serde = { version = "=1.0.229", features = ["derive"] }
serde_json = "=1.0.154"
tokio = { version = "=1.54.1", features = ["full"] }
