[package]
name = "poolcycle"
version = "0.1.0"
edition = "2021"
publish = false

[dependencies]
bigdecimal = "=0.4.11"
serde = { version = "*", features = ["derive"] }
serde_json = "*"
reqwest = { version = "*", default-features = false, features = ["json"] }
tokio = { version = "*", features = ["rt-multi-thread", "macros", "time"] }
sqlx = { version = "=0.9.0", features = ["postgres", "runtime-tokio"] }
graphql_client = "*"
tracing = "*"
tracing-subscriber = "*"
dotenv = "*"
async-trait = "*"
