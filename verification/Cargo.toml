[package]
name = "zipdex"
version = "0.1.0"
edition = "2021"
publish = false

[dependencies]
flate2 = "*"
aws-config = "*"
aws-sdk-s3 = "*"
tokio = { version = "*", features = ["macros", "rt-multi-thread"] }

[dev-dependencies]
zip = { version = "*", default-features = false, features = ["deflate"] }
