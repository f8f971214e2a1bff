[package]
name = "ulid_sql"
version = "0.1.0"
edition = "2021"
publish = false

[dependencies]
clap = "4"

[dev-dependencies]
ulid = "1"
hex = "0.4"
