[package]
name = "org_tools_core"
version = "0.1.0"
edition = "2021"
publish = false

[dependencies]
unicode-width = "*"
uuid = { version = "*", features = ["v4"] }
serde = { version = "*", features = ["derive"] }
serde_json = "*"
toml = "*"
ignore = "*"
tempfile = "*"
rusqlite = { version = "*", features = ["bundled"] }
