[package]
name = "poke_search"
version = "0.1.0"
edition = "2021"
publish = false

[dependencies]
clap = { version = "4", features = ["derive"] }
dashmap = "6"
rand = { version = "0.9", features = ["small_rng"] }
