[package]
name = "giti"
version = "0.1.0"
edition = "2021"
publish = false

[dependencies]
url = "2"
serde = { version = "1", features = ["derive"] }
serde_json = "1"
git2 = "*"
chrono = "0.4"
tempfile = "3"
term = "*"
webbrowser = "*"
default-editor = "*"
tokio = { version = "1", features = ["macros", "rt-multi-thread"] }
reqwest = { version = "0.12", default-features = false, features = ["json"] }
