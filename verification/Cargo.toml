[package]
name = "shotgallery"
version = "0.1.0"
edition = "2021"
publish = false

[dependencies]
argh = "=0.1.19"
askama = "=0.16.1"
askama_web = { version = "=0.16.0", features = ["poem-3"] }
poem = { version = "=3.1.12", features = ["static-files"] }
tokio = { version = "=1.53.2", features = ["macros", "rt"] }
tracing-subscriber = "=0.3.23"
