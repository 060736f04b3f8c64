[package]
name = "t_na"
version = "0.1.0"
edition = "2021"
publish = false

[dependencies]
chrono = "0.4"
fern = "=0.6.2"
log = "=0.4.34"
image = "=0.23.14"
r2d2 = "=0.8.10"
r2d2_sqlite = "=0.17.0"
reqwest = "=0.10.10"
rspotify = "0.16"
rusqlite = { version = "=0.24.2", features = ["bundled"] }
serenity = "=0.9.4"
tokio = { version = "=0.2.25", features = ["macros", "rt-threaded", "fs"] }
