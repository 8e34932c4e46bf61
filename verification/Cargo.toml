[package]
name = "rgctl_analysis"
version = "0.1.0"
edition = "2021"
publish = false

[dependencies]
bit-set = "*"
zstd = "*"
petgraph = "*"
uuid = { version = "1", features = ["v4", "serde"] }
serde = { version = "1", features = ["derive"] }
serde_json = "1"
bincode = "1"
memmap2 = "*"
smallvec = { version = "1", features = ["serde"] }
tracing = "*"
rayon = "*"
tree-sitter = "*"
