[package]
name = "rauta"
version = "0.1.0"
edition = "2021"
publish = false

[dependencies]
anyhow = "1"
async-trait = "0.1"
clap = { version = "4", features = ["derive"] }
http-body-util = "0.1"
hyper = { version = "1", features = ["full"] }
hyper-util = { version = "0.1", features = ["full"] }
k8s-openapi = { version = "0.23", default-features = false, features = ["v1_30"] }
kube = { version = "0.96", default-features = false, features = ["client", "rustls-tls"] }
lazy_static = "1"
matchit = "0.8"
prometheus = { version = "0.13", default-features = false }
regex = "1"
reqwest = { version = "0.12", default-features = false, features = ["json"] }
rmcp = { version = "*", features = ["server", "macros", "transport-io"] }
rustls = { version = "0.23", default-features = false, features = ["ring", "std", "tls12"] }
rustls-pemfile = "2"
schemars = "1"
serde = { version = "1", features = ["derive"] }
serde_json = "1"
thiserror = "1"
tokio = { version = "1", features = ["full"] }
tokio-rustls = { version = "0.26", default-features = false, features = ["ring", "tls12"] }
tracing = "0.1"
tracing-subscriber = { version = "0.3", features = ["env-filter"] }
uuid = { version = "1", features = ["v4"] }
