[package]
name = "visualoc_core"
version = "0.1.0"
edition = "2021"
publish = false

[dependencies]
uuid = { version = "1", features = ["v4"] }
infer = "*"
zip = { version = "*", default-features = false, features = ["deflate"] }
image = { version = "*", default-features = false, features = ["png", "jpeg", "webp", "gif"] }
tokio = { version = "1", features = ["rt-multi-thread", "macros", "fs", "process", "time", "sync", "io-util"] }
sqlx = { version = "*", default-features = false, features = ["runtime-tokio", "postgres"] }
