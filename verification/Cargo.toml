[package]
name = "openobserve"
version = "0.1.0"
edition = "2021"
publish = false

[dependencies]
leon = "=3.0.3"
regex = "=1.13.1"
chrono = "=0.4.45"
datafusion = { version = "*", default-features = false }
ldap3 = { version = "=0.12.1", default-features = false }
log = "*"
moka = { version = "=0.12.16", features = ["future"] }
promql-parser = "*"
serde = { version = "*", features = ["derive"] }
tokio = { version = "=1.53.2", features = ["rt", "macros", "sync", "time"] }
tracing = "*"
