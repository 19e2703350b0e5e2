[package]
name = "beatmap_downloader"
version = "0.1.0"
edition = "2021"
publish = false

[dependencies]
chrono = { version = "0.4", default-features = false, features = ["std"] }
clap = { version = "4", features = ["derive"] }
csv = "1"
dotenv = "0.15"
flate2 = "1"
fxhash = "0.2"
parquet = { version = "*", default-features = false, features = ["snap"] }
reqwest = { version = "0.12", default-features = false, features = ["rustls-tls"] }
rosu-mods = "*"
rosu-pp = "*"
rosu-v2 = "*"
serde_json = "1"
sqlx = { version = "0.8", default-features = false, features = ["mysql", "runtime-tokio"] }
tokio = { version = "1", features = ["rt-multi-thread", "macros", "time", "fs"] }
