[package]
name = "lang_stats"
version = "0.1.0"
edition = "2021"
publish = false

[dependencies]
serde_json = "*"
serde = { version = "*", features = ["derive"] }
reqwest = { version = "*", default-features = false, features = ["blocking", "json"] }
rayon = "*"
chrono = "*"
tera = { version = "*", default-features = false }
