[package]
name = "cosmic_printers"
version = "0.1.0"
edition = "2021"
publish = false

[dependencies]
serde = { version = "=1.0.229", features = ["derive"] }
zlink = "=0.8.0"
tokio = { version = "=1.54.1", features = ["rt", "macros", "sync"] }
dirs = "=6.0.0"
