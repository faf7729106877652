[package]
name = "xnip"
version = "0.1.0"
edition = "2021"
publish = false

[dependencies]
regex = "1"
similar = "2"
anyhow = "1"
thiserror = "2"
clap = { version = "4", features = ["derive"] }
serde = { version = "1", features = ["derive"] }
serde_json = "1"
serde_yaml = "0.9"
tempfile = "3"
rayon = "1"
is-terminal = "0.4"
rmcp = { version = "*", features = ["server", "macros", "transport-io"] }
schemars = "*"
tokio = { version = "1", features = ["rt", "io-std", "macros"] }
