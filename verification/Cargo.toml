[package]
name = "ecs_shell"
version = "0.1.0"
edition = "2021"
publish = false

[dependencies]
anyhow = "*"
aws-config = "*"
aws-sdk-ecs = "*"
clap = { version = "*", features = ["derive"] }
dialoguer = { version = "*", features = ["fuzzy-select"] }
dirs = "*"
tokio = { version = "*", features = ["macros", "rt-multi-thread"] }
