[package]
name = "tag_detector"
version = "0.1.0"
edition = "2021"
publish = false

[dependencies]
anyhow = "*"
fancy-regex = "=0.19.2"
levenshtein = "=1.0.5"
rand = "=0.10.3"
chrono = "*"
log = "*"
log4rs = "=1.4.0"
serde = { version = "*", features = ["derive"] }
