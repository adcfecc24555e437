[package]
name = "lint_emit"
version = "0.1.0"
edition = "2021"
publish = false

[dependencies]
regex = "1"
clap = "*"
colored = "*"
dialoguer = "*"
directories = "*"
indicatif = "*"
itertools = "*"
rayon = "1"
serde = { version = "1", features = ["derive"] }
slog = "2"
slog-async = "2"
slog-term = "2"
toml = "*"
walkdir = "2"
xdg = "*"
