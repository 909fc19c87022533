[package]
name = "pg_whitelist_proxy"
version = "0.1.0"
edition = "2021"
publish = false

[dependencies]
aho-corasick = "1"
async-trait = "0.1"
clap = { version = "4", features = ["derive"] }
dotenvy = "0.15"
eyre = "0.6"
futures = "0.3"
moka = { version = "0.12", features = ["future"] }
pg_query = "=18.1.0"
pgwire = { version = "=0.42.1", default-features = false, features = ["server-api-ring", "client-api-ring"] }
reqwest = { version = "0.12", default-features = false, features = ["json"] }
serde = { version = "1", features = ["derive"] }
tokio = { version = "1", features = ["full"] }
tokio-util = { version = "0.7", features = ["codec"] }
toml = "*"
tracing = "0.1"
tracing-subscriber = { version = "0.3", features = ["env-filter"] }
