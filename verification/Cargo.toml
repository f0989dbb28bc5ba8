[package]
name = "noosphere"
version = "0.1.0"
edition = "2021"
publish = false

[dependencies]
dioxus = { version = "0.6", default-features = false, features = ["macro", "html", "signals", "hooks", "launch", "document", "asset"] }
rusqlite = { version = "0.32", features = ["bundled"] }
