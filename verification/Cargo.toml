[package]
name = "hl-md-latency-bench"
version = "0.1.0"
edition = "2021"
publish = false

[dependencies]
chrono = "0.4"
clap = { version = "4", features = ["derive"] }
ctrlc = "3"
libc = "0.2"
prost = "0.12"
tokio = { version = "1", features = ["rt", "net", "time"] }
tonic = { version = "0.11", features = ["gzip", "tls", "tls-webpki-roots"] }
tracing = "0.1"
tracing-appender = "0.2"
tracing-subscriber = "0.3"
tungstenite = { version = "0.24", features = ["rustls-tls-webpki-roots"] }
url = "2"
