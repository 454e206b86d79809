[package]
name = "git_trivia"
version = "0.1.0"
edition = "2021"
publish = false

[dependencies]
clap = "2"
error-chain = { version = "0.12", default-features = false }
git2 = { version = "*", default-features = false }
indicatif = "*"
prettytable-rs = { version = "*", default-features = false }
serde = { version = "1", features = ["derive"] }
serde_derive = "1"
serde_json = "1"
serde_yaml = "*"
term = "*"
terminal_size = "*"
