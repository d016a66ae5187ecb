[package]
name = "biskit_mcp"
version = "0.1.0"
edition = "2021"
publish = false

[dependencies]
anyhow = "1"
clap = { version = "4", features = ["derive"] }
flate2 = "1"
memchr = "2"
regex = "1"
rmcp = { version = "*", features = ["server", "macros", "transport-io"] }
semver = "1"
serde = { version = "1", features = ["derive"] }
serde_json = { version = "1", features = ["preserve_order"] }
tar = "0.4"
tokio = { version = "1", features = ["full"] }
toml_edit = "*"
tracing = "0.1"
ureq = "3"
zip = { version = "*", default-features = false, features = ["deflate"] }
