[package]
name = "controller"
version = "0.1.0"
edition = "2021"
publish = false

[dependencies]
bollard = "*"
derive_more = { version = "*", features = ["display"] }
env_logger = "*"
log = "*"
rmp-serde = "*"
rouille = "*"
serde = { version = "*", features = ["derive"] }
thiserror = "*"
tokio = { version = "*", features = ["full"] }
