[package]
name = "codecrafters_redis"
version = "0.1.0"
edition = "2021"
publish = false

[dependencies]
dotenv = "0.15"
env_logger = "*"
log = "0.4"
tokio = { version = "1", features = ["full"] }
