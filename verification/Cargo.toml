[package]
name = "cotton"
version = "0.1.0"
edition = "2021"
publish = false

[dependencies]
node-semver = "*"
url = "*"
serde = { version = "*", features = ["derive"] }
serde_json = "*"
serde_path_to_error = "*"
toml = "*"
tokio = { version = "*", features = ["full"] }
reqwest = { version = "*", default-features = false, features = ["rustls-tls", "json", "stream", "gzip"] }
clap = { version = "*", features = ["derive"] }
futures = "*"
dashmap = "*"
flume = "*"
async-compression = { version = "*", features = ["tokio", "gzip"] }
tokio-tar = "*"
tokio-util = { version = "*", features = ["io"] }
which = "*"
nix = { version = "*", features = ["signal", "process"] }
rand = "*"
notify = "*"
indicatif = "*"
owo-colors = "*"
color-eyre = "*"
once_cell = "*"
