[package]
name = "benchreport"
version = "0.1.0"
edition = "2021"
publish = false

[dependencies]
rusqlite = { version = "*", features = ["bundled"] }
r2d2 = "*"
r2d2_sqlite = "*"
serde = { version = "*", features = ["derive"] }
serde_json = "*"
toml = "*"
actix-web = { version = "*", default-features = false, features = ["macros"] }
