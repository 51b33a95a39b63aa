[package]
name = "typed_fsm_diagram"
version = "0.1.0"
edition = "2021"
publish = false

[dependencies]
anyhow = "1"
clap = { version = "4", features = ["derive"] }
mermaid-builder = "=0.1.2"
proc-macro2 = "=1.0.107"
quote = "=1.0.47"
ra_ap_syntax = ">=0.0.300, <0.0.322"
serde = { version = "1", features = ["derive"] }
syn = { version = "=2.0.119", features = ["full", "visit", "extra-traits"] }
toml = "0.8"
walkdir = "2"
