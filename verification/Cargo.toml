[package]
name = "slog"
version = "0.1.0"
edition = "2021"

[dependencies]
base64 = "=0.22.1"
bincode = "=1.3.3"
bytes = { version = "=1.12.1", features = ["serde"] }
fuser = "=0.18.0"
object_store = { version = "=0.14.2", features = ["aws"] }
rusqlite = { version = "=0.41.1", features = ["bundled", "serialize"] }
serde = { version = "=1.0.229", features = ["derive"] }
serde_json = "=1.0.154"
sha2 = "=0.10.9"
slatedb = "=0.18.0"
thiserror = "=2.0.21"
tokio = { version = "=1.54.1", features = ["full"] }
ulid = "=1.2.1"
zstd = "=0.13.4"
