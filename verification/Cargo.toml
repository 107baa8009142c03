[package]
name = "money2"
version = "0.1.0"
edition = "2021"
publish = false

[dependencies]
chrono = "*"
num-traits = "*"
reqwest = { version = "*", default-features = false }
serde = { version = "*", features = ["derive"] }
thiserror = "*"
tokio = { version = "*", features = ["sync"] }
zip = { version = "*", default-features = false, features = ["deflate"] }
