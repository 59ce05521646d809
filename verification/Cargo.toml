[package]
name = "sensor_pipeline"
version = "0.1.0"
edition = "2021"
publish = false

[dependencies]
ctrlc = "=3.5.2"
rand = "=0.10.3"
reqwest = { version = "=0.12.28", default-features = false, features = ["blocking", "json"] }
salvo = { version = "=1.1.0", default-features = false, features = ["server", "server-handle", "http1"] }
serde = { version = "=1.0.229", features = ["derive"] }
serde_json = "=1.0.154"
tokio = { version = "=1.54.1", features = ["rt-multi-thread", "macros", "time", "sync"] }
toml = "=0.8.23"
