[package]
name = "atomr_ontology"
version = "0.1.0"
edition = "2021"
publish = false

[dependencies]
hex = "0.4"
chrono = { version = "0.4", default-features = false, features = ["clock", "std"] }
serde = { version = "1", features = ["derive"] }
serde_json = "1"
thiserror = "1"
async-trait = "0.1"
parking_lot = "0.12"
tracing = "0.1"
tokio = { version = "1", features = ["fs", "rt", "rt-multi-thread", "macros", "net", "io-util", "sync", "time"] }
rusqlite = { version = "0.31", features = ["bundled"] }
reqwest = { version = "0.12", default-features = false }
