[package]
name = "note_taker_lib"
version = "0.1.0"
edition = "2021"
publish = false

[dependencies]
log = "0.4"
regex = "1"
reqwest_dav = "*"
serde = { version = "1", features = ["derive"] }
tokio = { version = "1", features = ["sync", "macros", "rt-multi-thread"] }

[dev-dependencies]
rand = "0.8"
