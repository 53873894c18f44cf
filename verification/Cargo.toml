[package]
name = "datatransfer"
version = "0.1.0"
edition = "2021"
publish = false

[dependencies]
chrono = "0.4"
cron = "*"
env_logger = "*"
libloading = "0.8"
log = "0.4"
mysql = { version = "*", default-features = false, features = ["minimal-rust"] }
oracle = { version = "0.6", features = ["chrono"] }
postgres = { version = "0.19", features = ["with-chrono-0_4"] }
r2d2 = "0.8"
r2d2_postgres = "0.18"
serde = { version = "1", features = ["derive"] }
serde_json = "1"
thiserror = "*"
yaml-rust2 = "*"
