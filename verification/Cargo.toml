[package]
name = "editorconfig_updater"
version = "0.1.0"
edition = "2021"
publish = false

[dependencies]
quick-xml = "0.30"
json = "0.12"
hyper = { version = "0.14", features = ["client", "http1", "tcp"] }
hyper-rustls = "0.24"
rustls = "0.21"
tokio = { version = "1", features = ["rt-multi-thread", "macros"] }
