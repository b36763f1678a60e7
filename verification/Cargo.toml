[package]
name = "psd2ase_core"
version = "0.1.0"
edition = "2021"
publish = false

[dependencies]
ag-psd = "*"
aseprite-io = "*"
flate2 = "*"
serde = { version = "*", features = ["derive"] }
serde_json = "*"
sha2 = "*"
