[package]
name = "skvs"
version = "0.1.0"
edition = "2021"
publish = false

[dependencies]
anyhow = "1"
async-trait = "0.1"
base64 = "0.13"
bincode = "1.3"
dashmap = "5"
hex = "0.4"
indexmap = { version = "2", features = ["serde"] }
napi = { version = "2", default-features = false, features = ["napi4", "serde-json"] }
napi-derive = "2"
regex = "1"
serde = { version = "1", features = ["derive"] }
serde_json = { version = "1", features = ["raw_value", "unbounded_depth"] }
sqlparser = { version = "0.40", features = ["serde"] }
thiserror = "1"
tokio = { version = "1", features = ["rt-multi-thread", "net", "sync", "time", "macros"] }
toml = "0.8"
