[package]
name = "npe_graph"
version = "0.1.0"
edition = "2021"
publish = false

[dependencies]
slotmap = { version = "=1.1.1", features = ["serde"] }
petgraph = "=0.8.3"
serde = { version = "=1.0.229", features = ["derive"] }
bincode = "=1.3.3"

[dev-dependencies]
serde_json = "=1.0.154"
ron = "=0.12.3"
