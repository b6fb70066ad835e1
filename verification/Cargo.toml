[package]
name = "ramus_core"
version = "0.1.0"
edition = "2021"
publish = false

[dependencies]
chrono = "=0.4.45"
dirs = "=7.0.0"
git2 = { version = "=0.21.0", default-features = false }
notify = "=8.2.1"
rusqlite = "=0.41.1"
serde = { version = "=1.0.229", features = ["derive"] }
serde_json = "=1.0.154"
tantivy = "=0.27.0"
thiserror = "=2.0.21"
rmcp = { version = "*", features = ["server", "macros", "transport-io"] }
tokio = { version = "1", features = ["macros", "rt-multi-thread", "io-std"] }
schemars = "*"
