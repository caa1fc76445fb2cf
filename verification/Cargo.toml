[package]
name = "prism"
version = "0.1.0"
edition = "2021"
publish = false

[dependencies]
arrow = { version = "=59.3.2", default-features = false, features = ["chrono-tz", "json"] }
async-trait = "*"
axum = "=0.8.9"
chrono = "=0.4.45"
clap = { version = "=4.6.7", features = ["derive", "env"] }
futures = "=0.3.34"
object_store = { version = "=0.13.2", default-features = false, features = ["fs"] }
opentelemetry-proto = { version = "=0.33.1", default-features = false, features = ["gen-tonic-messages", "trace"] }
parquet = { version = "=59.3.2", default-features = false, features = ["arrow", "zstd"] }
prost = "=0.14.4"
serde = { version = "*", features = ["derive"] }
tokio = { version = "=1.54.1", features = ["macros", "net", "rt-multi-thread", "signal", "sync", "time"] }
uuid = { version = "=1.29.0", features = ["v7"] }
