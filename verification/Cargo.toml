[package]
name = "rumq-broker"
version = "0.1.0"
edition = "2021"
publish = false

[dependencies]
bytes = "=1.12.1"
tokio = { version = "=1.54.1", default-features = false, features = ["sync", "time", "macros", "rt"] }
thiserror = "=2.0.21"
derive_more = { version = "=2.1.1", features = ["from"] }
rumq-core = "=0.1.0-alpha.10"
