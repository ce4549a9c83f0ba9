[package]
name = "tai"
version = "0.1.0"
edition = "2021"
publish = false

[dependencies]
async-openai = { version = "=0.43.0", features = ["byot", "chat-completion"] }
async-trait = "=0.1.92"
clap = { version = "=4.6.7", features = ["derive"] }
dotenv = "=0.15.0"
duct = "=1.1.2"
futures-util = "=0.3.34"
getrandom = "=0.4.3"
serde = { version = "=1.0.229", features = ["derive"] }
serde_json = "=1.0.154"
thiserror = "=2.0.21"
tokio = { version = "=1.54.1", features = ["full"] }
toml = "=1.1.8"
tracing = "=0.1.44"
tracing-subscriber = { version = "=0.3.23", features = ["env-filter"] }
uuid = { version = "=1.29.0", features = ["v4"] }
