[package]
name = "costaeres"
version = "0.1.0"
edition = "2021"
publish = false

[dependencies]
async-std = "1"
bincode = "1.3"
chrono = { version = "0.4", features = ["serde"] }
image = { version = "0.24", default-features = false, features = ["jpeg", "png"] }
lru = "0.7"
serde = { version = "1.0", features = ["derive"] }
serde_json = "1.0"
thiserror = "1.0"
uuid = { version = "0.8", features = ["v4"] }
