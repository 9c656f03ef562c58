[package]
name = "thrust_build"
version = "0.1.0"
edition = "2021"
publish = false

[dependencies]
proc-macro2 = "=1.0.107"
quote = "=1.0.47"
syn = { version = "=2.0.119", features = ["full"] }
unicode-ident = "=1.0.27"
walkdir = "=2.5.0"
axum = "=0.7.9"
tokio = { version = "=1.54.1", features = ["rt-multi-thread", "net", "macros"] }
serde_json = "=1.0.154"
