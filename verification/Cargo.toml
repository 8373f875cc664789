[package]
name = "refac"
version = "0.1.0"
edition = "2021"
publish = false

[dependencies]
pathdiff = "*"
url = "*"
anyhow = "*"
async-trait = "*"
clap = { version = "4", features = ["derive", "env"] }
clap_complete = "4"
clap_mangen = "*"
lsp-types = "*"
rmcp = "*"
schemars = "*"
serde = { version = "1", features = ["derive"] }
serde_json = "1"
tokio = { version = "1", features = ["full"] }
tracing = "*"
tracing-subscriber = { version = "*", features = ["env-filter"] }
walkdir = "*"
which = "*"

[dev-dependencies]
tempfile = "*"
