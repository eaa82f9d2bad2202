[package]
name = "ode"
version = "0.1.0"
edition = "2021"
publish = false

[dependencies]
sha2 = "0.10"
nanoid = "0.4"
serde = { version = "1", features = ["derive"] }
serde_json = "1"
clap = { version = "4", features = ["derive", "env"] }
zip = "2"
thiserror = "1"
