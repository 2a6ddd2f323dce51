[package]
name = "kannader"
version = "0.1.0"
edition = "2021"
publish = false

[dependencies]
idna = "0.2"
futures = "0.3"
serde = { version = "1", features = ["derive"] }
chrono = "0.4"
anyhow = "1"
structopt = "0.3"

[dev-dependencies]
nom = "5"
