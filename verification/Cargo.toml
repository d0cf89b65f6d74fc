[package]
name = "backend"
version = "0.1.0"
edition = "2021"
publish = false

[dependencies]
anyhow = "1"
arrow = { version = "53", default-features = false }
async-trait = "0.1"
axum = "0.7"
bytes = "1"
clap = { version = "4", features = ["derive"] }
clickhouse = "0.12"
dashmap = "6"
dotenv = "0.15"
futures = "0.3"
lazy_static = "1"
mysql_async = "0.34"
num-traits = "0.2"
object_store = "0.11"
ordered-float = "4"
parquet = { version = "53", default-features = false, features = ["arrow", "snap"] }
serde = { version = "1", features = ["derive"] }
serde_json = "1"
thiserror = "1"
time = "0.3"
tokio = { version = "1", features = ["full"] }
tower-http = { version = "0.5", features = ["cors"] }
tracing = "0.1"
tracing-subscriber = "0.3"
