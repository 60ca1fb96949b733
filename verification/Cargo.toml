[package]
name = "wordle_solve"
version = "0.1.0"
edition = "2021"
publish = false

[dependencies]
clap = { version = "4", features = ["derive"] }
dirs = "*"
hex = "0.4"
indicatif = { version = "0.17", features = ["rayon"] }
rayon = "1"
serde_json = "1"
sha2 = "0.10"
