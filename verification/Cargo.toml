[package]
name = "pijul_core"
version = "0.1.0"
edition = "2021"
publish = false

[dependencies]
diffs = "0.5"
imara-diff = "0.1"
anyhow = "1"
thiserror = "1"
serde = { version = "1", features = ["derive"] }
serde_json = "1"
toml = "0.8"
clap = { version = "4", features = ["derive"] }
dirs-next = "2"
whoami = "1"
dialoguer = "*"
log = "0.4"
edit = "*"
jiff = "*"
tokio = { version = "1", features = ["full"] }
futures = "0.3"
axum = "0.7"
tower-http = { version = "0.5", features = ["cors", "trace"] }
tracing = "0.1"
tracing-subscriber = "0.3"
thrussh = "*"
thrussh-keys = "*"

[dev-dependencies]
regex = "1"
