[package]
name = "trove"
version = "0.1.0"
edition = "2021"
publish = false

[dependencies]
sha2 = "0.10"
hex = "0.4"
chrono = "0.4"
url = "2"
serde = { version = "1", features = ["derive"] }
serde_json = "1"
select = "0.6"
reqwest = { version = "0.12", default-features = false, features = ["blocking"] }
clap = "2"
dirs = "5"
