[package]
name = "typed_pager"
version = "0.1.0"
edition = "2021"
publish = false

[dependencies]
uuid = { version = "1", features = ["v4"] }
chrono = "0.4"
serde = { version = "1", features = ["derive"] }
serde_json = "1"
axum = "0.7"
tokio = { version = "1", features = ["macros", "rt-multi-thread", "net", "time"] }
diesel = { version = "2", features = ["postgres", "chrono", "serde_json", "r2d2"] }
log = "0.4"
anyhow = "1"
thiserror = "1"
dotenv = "0.15"
