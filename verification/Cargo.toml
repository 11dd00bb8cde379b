[package]
name = "aqfs"
version = "0.1.0"
edition = "2021"
publish = false

[dependencies]
chrono = "0.4"
uuid = { version = "0.8", features = ["v4"] }
rusoto_core = { version = "0.46", default-features = false, features = ["rustls"] }
rusoto_s3 = { version = "0.46", default-features = false, features = ["rustls"] }
tokio = { version = "1", features = ["macros", "rt-multi-thread"] }
async-trait = "0.1"
futures = "0.3"
filetime = "0.2"
