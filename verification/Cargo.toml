[package]
name = "llm_conduit"
version = "0.2.0"
edition = "2021"
publish = false

[dependencies]
bytes = "1"
clap = { version = "4", features = ["derive", "env"] }
getrandom = "0.2"
http-body-util = "0.1"
hyper = { version = "1", features = ["http1", "server", "client"] }
hyper-rustls = { version = "0.27", features = ["http1", "native-tokio", "webpki-tokio", "aws-lc-rs"] }
hyper-util = { version = "0.1", features = ["client-legacy", "http1", "server", "server-graceful", "tokio"] }
rustls = "0.23"
rustls-pemfile = "2"
serde = { version = "1", features = ["derive"] }
serde_json = "1"
tokio = { version = "1", features = ["rt-multi-thread", "macros", "net", "signal", "time", "io-util"] }
tokio-rustls = "0.26"
toml = "0.8"
tracing = "0.1"
tracing-subscriber = { version = "0.3", features = ["env-filter"] }
