[package]
name = "indexer"
version = "0.1.0"
edition = "2021"
publish = false

[dependencies]
markdown = "1"
postcard = { version = "1", default-features = false, features = ["use-std"] }
serde = { version = "1", features = ["derive"] }
axum = { version = "0.7", features = ["macros"] }
sqlx = { version = "0.8", default-features = false, features = ["sqlite", "runtime-tokio", "macros", "derive"] }
tokio = { version = "1", features = ["rt-multi-thread", "macros", "net"] }
tower-http = { version = "0.5", features = ["cors"] }
