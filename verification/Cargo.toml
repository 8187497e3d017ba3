[package]
name = "newplaces"
version = "0.1.0"
edition = "2021"
publish = false

[dependencies]
redis = "0.25"
rocket = { version = "0.5", features = ["json"] }
rocket_db_pools = { version = "0.2", features = ["deadpool_redis"] }
