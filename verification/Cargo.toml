[package]
name = "s3_csv_agg"
version = "0.1.0"
edition = "2021"
publish = false

[dependencies]
anyhow = "1"
aws-config = { version = "1", default-features = false }
aws-sdk-s3 = { version = "1", default-features = false }
dotenv = "0.15"
env_logger = { version = "0.11", default-features = false }
log = "0.4"
tokio = { version = "1", default-features = false, features = ["rt", "macros"] }
