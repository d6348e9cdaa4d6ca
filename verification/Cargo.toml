[package]
name = "emote_tally"
version = "0.1.0"
edition = "2021"
publish = false

[dependencies]
serenity = "0.10"
sqlx = { version = "0.5", features = ["sqlite", "runtime-tokio-rustls"] }
tokio = { version = "1", features = ["macros", "rt-multi-thread"] }
