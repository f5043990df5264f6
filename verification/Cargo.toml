[package]
name = "hnapi"
version = "0.1.0"
edition = "2021"
publish = false

[dependencies]
chrono = { version = "*", features = ["serde", "clock"] }
chrono-humanize = "*"
clap = "*"
console = "*"
dirs = "*"
html-escape = "*"
hyphenation = { version = "*", features = ["embed_all"] }
regex = "*"
reqwest = { version = "*", default-features = false, features = ["cookies"] }
scraper = "*"
serde = { version = "*", features = ["derive"] }
serde_json = "*"
textwrap = { version = "*", features = ["hyphenation"] }
tokio = { version = "*", features = ["rt-multi-thread", "macros"] }
url = { version = "*", features = ["serde"] }
webbrowser = "*"
