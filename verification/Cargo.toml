[package]
name = "cli_program_template"
version = "0.1.0"
edition = "2021"
publish = false

[dependencies]
serde = { version = "1", features = ["derive"] }
serde_yaml = "0.9"
clap = "2"

[dev-dependencies]
borsh = "1"
