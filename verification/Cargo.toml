[package]
name = "crash_reporter"
version = "0.1.0"
edition = "2021"
publish = false

[dependencies]
sentry = { version = "*", default-features = false, features = ["backtrace", "contexts", "panic", "reqwest", "rustls"] }
