[package]
name = "dotbot"
version = "0.1.0"
edition = "2021"
publish = false

[dependencies]
rand = "0.8"
urlencoding = "2"
serde = { version = "1", features = ["derive"] }
serenity = "0.12"
poise = "0.6"
tokio = { version = "1", features = ["macros", "rt-multi-thread", "signal"] }
mongodb = "2"
futures-lite = "2"
dotenv = "0.15"
tracing = "0.1"
tracing-subscriber = { version = "0.3", default-features = false, features = ["fmt", "std"] }
reqwest = { version = "0.11", default-features = false, features = ["json", "rustls-tls"] }
image = { version = "0.24", default-features = false, features = ["png"] }
imageproc = { version = "0.23", default-features = false }
rusttype = "0.9"
