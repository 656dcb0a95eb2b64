[package]
name = "dnsync"
version = "0.1.0"
edition = "2021"
publish = false

[dependencies]
anyhow = "*"
clap = { version = "*", features = ["derive"] }
futures = "*"
itertools = "*"
nix = { version = "*", features = ["fs"] }
serde = { version = "*", features = ["derive"] }
serde_json = "*"
tokio = { version = "*", features = ["macros", "rt", "fs"] }
tracing = "*"
tracing-journald = "*"
tracing-subscriber = { version = "*", features = ["env-filter", "fmt"] }
