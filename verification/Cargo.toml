[package]
name = "kanidm_sshkey_fetcher"
version = "0.1.0"
edition = "2021"
publish = false

[dependencies]
clap = { version = "*", features = ["derive"] }
serde = { version = "*", features = ["derive"] }
shellexpand = "*"
tokio = { version = "*", default-features = false, features = ["rt", "macros"] }
toml = "*"
tracing = "*"
tracing-subscriber = { version = "*", default-features = false, features = ["fmt"] }
