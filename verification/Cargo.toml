[package]
name = "pg_validate_extupgrade"
version = "0.1.0"
edition = "2021"
publish = false

[dependencies]
diffy = "*"
clap = "2"
postgres = "0.19"
serde = { version = "1", features = ["derive"] }
serde_json = "1"
toml = "*"
whoami = "*"
