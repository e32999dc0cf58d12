[package]
name = "exms"
version = "0.1.0"
edition = "2021"
publish = false

[dependencies]
colored = "*"
indexmap = { version = "*", features = ["serde"] }
prettytable-rs = "*"
serde = { version = "*", features = ["derive"] }
serde_json = "*"
term_size = "*"
termplot = "*"
toml = "*"
unidecode = "*"
