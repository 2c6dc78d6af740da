[package]
name = "ir_bench"
version = "0.1.0"
edition = "2021"
publish = false

[dependencies]
anyhow = "=1.0.104"
chrono = "=0.4.45"
clap = { version = "=4.6.7", features = ["derive"] }
csv = "=1.4.0"
iracing = "=0.4.1"
json5 = "=1.3.7"
open = "=5.4.5"
plotly = "=0.14.1"
rayon = "=1.12.0"
serde = { version = "=1.0.229", features = ["derive"] }
serde_json = "=1.0.154"
winapi = { version = "=0.3.9", features = ["winuser"] }
