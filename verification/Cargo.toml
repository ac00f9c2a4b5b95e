[package]
name = "csvizmo_depgraph"
version = "0.1.0"
edition = "2021"
publish = false

[dependencies]
indexmap = "=2.14.2"
petgraph = "=0.8.3"
globset = "=0.4.21"
regex = "=1.13.1"
either = "=1.19.0"
eyre = "=0.6.14"
color-eyre = "=0.6.5"
clap = { version = "=4.6.7", features = ["derive"] }
dot-parser = "=0.6.1"
mermaid-rs-renderer = "=0.3.1"
serde_json = "=1.0.154"
cargo_metadata = "=0.23.1"
tracing = "=0.1.44"
tracing-subscriber = { version = "=0.3.23", features = ["env-filter"] }
rand = "0.9"
graphrs = "*"
csv = "1"
