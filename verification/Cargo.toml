[package]
name = "chaincore"
version = "0.1.0"
edition = "2021"
publish = false

[dependencies]
ethers-core = "2.0"
ethers-signers = "2.0"
serde = { version = "1.0.229", features = ["derive"] }
serde_json = "1.0.151"
anyhow = "1.0.104"
clap = { version = "4.5.61", features = ["derive"] }
tokio = { version = "1", features = ["macros", "rt-multi-thread"] }
tracing = "0.1"
tracing-subscriber = "0.3"
