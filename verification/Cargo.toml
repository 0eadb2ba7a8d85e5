[package]
name = "i18n_tasks_rs"
version = "0.1.0"
edition = "2021"
publish = false

[dependencies]
aho-corasick = "1"
clap = { version = "4", features = ["derive"] }
globset = "0.4"
rayon = "1"
regex = "1"
ruby-prism = "1"
serde = { version = "1", features = ["derive"] }
serde_json = "1"
similar = "2"
