[package]
name = "pixel_agents"
version = "0.1.0"
edition = "2021"
publish = false

[dependencies]
base64 = "0.22"
image = { version = "0.25", default-features = false }
serde_json = "1"
clap = { version = "4", features = ["derive"] }
crossterm = "0.28"
tokio = { version = "1", features = ["rt-multi-thread", "macros", "time", "signal"] }

[dev-dependencies]
tempfile = "3"
