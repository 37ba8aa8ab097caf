[package]
name = "team_centrality"
version = "0.1.0"
edition = "2021"
publish = false

[dependencies]
petgraph = "0.6"
csv = "1"
serde = { version = "1", features = ["derive"] }
