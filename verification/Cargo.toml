[package]
name = "mr"
version = "0.1.0"
edition = "2021"
publish = false

[dependencies]
anyhow = "1"
clap = { version = "4", features = ["derive"] }
glyphs = "*"
itertools = "*"
serde = { version = "1", features = ["derive"] }
terminal_size = "*"
toml_edit = { version = "*", features = ["serde"] }
unicode-segmentation = "1"
winnow = "0.7"
xdg = "*"
