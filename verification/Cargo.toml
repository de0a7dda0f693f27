[package]
name = "wex"
version = "0.1.0"
edition = "2021"
publish = false

[dependencies]
actix-web = { version = "4", features = ["openssl"] }
actix-multipart = "*"
futures = "0.3"
log = "0.4"
env_logger = "*"
dirs = "*"
openssl = "*"
rcgen = "0.13"
