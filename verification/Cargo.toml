[package]
name = "truco_bots"
version = "0.1.0"
edition = "2021"
publish = false

[dependencies]
rand = "0.8"
serde = { version = "1", features = ["derive"] }
serde_json = "1"
thiserror = "1"
smallvec = "1"
rayon = "1"
reqwest = { version = "0.12", default-features = false, features = ["json"] }
