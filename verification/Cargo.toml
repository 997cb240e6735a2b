[package]
name = "amoeba"
version = "0.1.0"
edition = "2021"
publish = false

[dependencies]
clap = { version = "4", features = ["derive"] }
colored = "2"
nom = "7"
ordered-float = "*"
petgraph = "*"
rusqlite = { version = "*", features = ["bundled", "backup"] }
