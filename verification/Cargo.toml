[package]
name = "hntui"
version = "0.1.0"
edition = "2021"
publish = false

[dependencies]
cursive = "*"
html_parser = "*"
reqwest = { version = "*", default-features = false }
tokio = { version = "*", features = ["macros", "rt-multi-thread"] }
