[package]
name = "ccspeaks"
version = "0.1.0"
edition = "2021"
publish = false

[dependencies]
anyhow = "1"
espeakng-sys = "*"
form_urlencoded = "1"
hyper = { version = "0.14", features = ["full"] }
listenfd = "1"
log = "0.4"
opentelemetry = { version = "0.18", features = ["rt-tokio"] }
opentelemetry-http = "0.7"
opentelemetry-otlp = "0.11"
opentelemetry-semantic-conventions = "0.10"
parking_lot = "0.12"
tokio = { version = "1", features = ["macros", "rt-multi-thread"] }
tracing-opentelemetry = "0.18"
tracing-subscriber = { version = "0.3", features = ["env-filter"] }
