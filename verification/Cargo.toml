[package]
name = "repo_tree"
version = "0.1.0"
edition = "2021"
publish = false

[dependencies]
serde_json = "1"
tabled = "0.15"
serde = { version = "1", features = ["derive"] }
tokio = { version = "1", features = ["rt-multi-thread", "macros"] }
reqwest = { version = "0.11", default-features = false, features = ["json"] }
tui = "0.19"
crossterm = "0.25"
clap = "4"
