[package]
name = "fnf_signup"
version = "0.1.0"
edition = "2021"
publish = false

[dependencies]
poise = "0.5"
sqlx = { version = "0.6", default-features = false, features = ["runtime-tokio-rustls", "postgres"] }
tokio = { version = "1", features = ["macros", "rt-multi-thread", "signal"] }
dotenv = "0.15"
tracing = "0.1"
tracing-subscriber = "0.3"
