[package]
name = "event_tally"
version = "0.1.0"
edition = "2021"
publish = false

[dependencies]
data-encoding = "*"
regex = "*"
serde = { version = "*", features = ["derive"] }
namada_migrations = "*"

[dev-dependencies]
borsh = "*"
