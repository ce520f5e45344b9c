[package]
name = "opacity_cli"
version = "0.1.0"
edition = "2021"
publish = false

[dependencies]
anyhow = "1"
axum = "*"
bstr = "1"
chrono = "0.4"
clap = { version = "4", features = ["derive"] }
clap_complete = "4"
darklua = "*"
petgraph = "*"
serde = { version = "1", features = ["derive"] }
serde_derive = "1"
serde_json = "1"
sha2 = "*"
tokio = { version = "1", features = ["full"] }
toml = "*"
toml_edit = "*"
tower = "*"
tower-http = { version = "*", features = ["trace"] }
tracing = "0.1"
tracing-subscriber = "0.3"
uuid = { version = "1", features = ["v4"] }
which = "*"
