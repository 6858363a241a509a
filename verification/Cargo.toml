[package]
name = "multifractal-workflow"
version = "0.1.0"
edition = "2021"
publish = false

[dependencies]
blake3 = "1"
hex = "0.4"
serde = { version = "1", features = ["derive"] }
serde_json = "1"
thiserror = "2"
bumpalo = "3"
bcinr-pddl = "26.10.11"
bcinr-powl = "26.10.11"
wasm4pm-compat = "26.8.7"
