[package]
name = "accesskit_remote"
version = "0.1.0"
edition = "2021"
publish = false

[dependencies]
accesskit = { version = "=0.24.1", features = ["serde"] }
atspi = { version = "=0.30.0", features = ["tokio", "proxies", "connection"] }
libc = "0.2"
objc2-app-kit = "=0.3.2"
objc2-application-services = "=0.3.2"
objc2-core-foundation = "=0.3.2"
serde = { version = "1", features = ["derive"] }
serde_json = "=1.0.154"
tokio = { version = "1", features = ["rt", "sync", "time", "macros"] }
tokio-stream = "0.1"
tracing = "0.1"

[dev-dependencies]
accesskit_consumer = "=0.38.0"
