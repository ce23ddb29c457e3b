[package]
name = "new_ide"
version = "0.1.0"
edition = "2021"
publish = false

[dependencies]
clap = { version = "4", features = ["derive"] }
dioxus = "0.3"
fermi = "0.3"
futures = "0.3"
tokio = { version = "1", features = ["rt", "rt-multi-thread"] }
