[package]
name = "dissertation"
version = "0.1.0"
edition = "2021"
publish = false

[dependencies]
clap = { version = "*", features = ["derive"] }
csv = "*"
dotenvy = "*"
futures = "*"
governor = "*"
indicatif = "*"
itertools = "*"
json5 = "*"
r2d2 = "*"
r2d2_sqlite = { version = "*", features = ["bundled"] }
reqwest = { version = "*", default-features = false, features = ["json", "rustls-tls"] }
rusqlite = "*"
serde = { version = "*", features = ["derive"] }
serde_json = "*"
statrs = "*"
tl = "*"
tokio = { version = "*", features = ["macros", "rt-multi-thread", "sync", "time"] }
