[package]
name = "llmbench"
version = "0.1.0"
edition = "2021"
publish = false

[dependencies]
glob = "*"
ansi-width = "*"
owo-colors = "*"
twox-hash = "*"
textwrap = "*"
clap = { version = "4", features = ["derive"] }
clap-verbosity-flag = "*"
tokio = { version = "1", features = ["full"] }
serde = { version = "1", features = ["derive"] }
serde_json = "1"
toml = "*"
openrouter = "*"
dotenvy = "*"
error-stack = "*"
thiserror = "*"
tracing = "*"
tracing-subscriber = { version = "*", features = ["env-filter"] }
indicatif = "*"
ordered-float = "*"
futures = "*"
