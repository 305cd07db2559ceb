[package]
name = "auth_core"
version = "0.1.0"
edition = "2021"
publish = false

[dependencies]
jsonwebtoken = { version = "=11.1.0", features = ["rust_crypto"] }
argon2rs = "=0.2.5"
chrono = "*"
uuid = { version = "*", features = ["v4"] }
argon2 = "*"
serde = { version = "*", features = ["derive"] }
serde_derive = "*"
dotenv = "*"
envy = "*"
validator = { version = "*", features = ["derive"] }
actix-web = "*"
actix-identity = "*"
actix-session = { version = "*", features = ["cookie-session"] }
actix-cors = "*"
actix-rt = "*"
actix-service = "*"
futures = "*"
log = "*"
env_logger = "*"
listenfd = "*"
lazy_static = "*"
once_cell = "*"

[dev-dependencies]
rand = "*"
