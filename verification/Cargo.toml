[package]
name = "adifconv"
version = "0.1.0"
edition = "2021"
publish = false

[dependencies]
axum = "*"
axum_typed_multipart = "*"
encoding_rs = "*"
serde = { version = "*", features = ["derive"] }
serde_json = "*"
tokio = { version = "*", features = ["macros", "net", "rt-multi-thread"] }
tower-http = { version = "*", features = ["cors", "fs"] }
