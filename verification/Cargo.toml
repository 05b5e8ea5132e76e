[package]
name = "deleted_files_manifest"
version = "0.1.0"
edition = "2021"
publish = false

[dependencies]
blake2 = "0.10"
serde_json = "1"
anyhow = "1"
futures = "0.3"
tokio = { version = "1", features = ["rt", "sync", "time"] }
clap = { version = "4", features = ["derive"] }
tracing = "0.1"
once_cell = "1"
sysinfo = "*"
