[package]
name = "dioxus_press"
version = "0.1.0"
edition = "2021"
publish = false

[dependencies]
pulldown-cmark = { version = "*", default-features = false }
syntect = { version = "5", default-features = false, features = ["default-fancy"] }
serde = { version = "1", features = ["derive"] }
serde_yaml_ng = "*"
toml = "*"
anyhow = "1"
clap = { version = "4", features = ["derive"] }
notify = "*"
proc-macro2 = "1"
quote = "1"
syn = { version = "2", features = ["full"] }
