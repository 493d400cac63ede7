[package]
name = "zttl"
version = "0.1.0"
edition = "2021"
publish = false

[dependencies]
petgraph = "=0.8.3"
ulid = "=3.0.0"
serde = { version = "=1.0.229", features = ["derive"] }
serde_yaml = "=0.9.34"
pulldown-cmark = "=0.13.6"
crossterm = "=0.29.0"
ratatui = "=0.30.2"
ratatui-image = { version = "=11.1.0", default-features = false, features = ["crossterm", "image-defaults"] }
image = "=0.25.10"
palette = "=0.7.7"
resvg = "=0.49.0"
tiny-skia = "=0.12.0"
usvg = "=0.49.0"
unicode-width = "=0.2.3"
what-terminal-font = "=0.1.1"
