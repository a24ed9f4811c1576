[package]
name = "alladin_pcb"
version = "0.1.0"
edition = "2021"

[dependencies]
axum = "*"
clap = { version = "4", features = ["derive"] }
dirs = "*"
rmcp = { version = "*", features = ["server", "macros", "transport-streamable-http-server"] }
serde = { version = "1", features = ["derive"] }
serde_json = "1"
tokio = { version = "1", features = ["rt-multi-thread", "net", "sync", "time", "macros"] }
ureq = { version = "2", features = ["json"] }
