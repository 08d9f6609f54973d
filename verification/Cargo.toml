[package]
name = "jpdict"
version = "0.1.0"
edition = "2021"
publish = false

[dependencies]
flate2 = "1"
ureq = { version = "3", default-features = false }
rusqlite = { version = "0.32", features = ["bundled"] }
serde = { version = "1", features = ["derive"] }
serde-xml-rs = "0.6"
clap = { version = "4", features = ["derive"] }
reqwest = { version = "0.12", default-features = false, features = ["blocking"] }
tokio = { version = "1", features = ["macros", "rt-multi-thread"] }
sqlx = { version = "0.8", default-features = false, features = ["sqlite", "runtime-tokio"] }
