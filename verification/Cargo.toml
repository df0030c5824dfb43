[package]
name = "metrics_migrator"
version = "0.1.0"
edition = "2021"
publish = false

[dependencies]
async-stream = "*"
chrono = "*"
clap = "*"
easy-logging = "*"
futures-core = "*"
futures-util = "*"
log = "*"
reqwest = { version = "*", default-features = false, features = ["stream", "rustls-tls"] }
serde = { version = "*", features = ["derive"] }
serde_derive = "*"
serde_json = "*"
tabled = "*"
tokio = { version = "*", features = ["macros", "rt"] }
tokio-util = { version = "*", features = ["io"] }
url = "*"
