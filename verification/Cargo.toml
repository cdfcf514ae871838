[package]
name = "rsync_rust"
version = "0.1.0"
edition = "2021"
publish = false

[dependencies]
clap = { version = "=4.6.7", features = ["derive"] }
color-eyre = "=0.6.5"

[dev-dependencies]
rmp-serde = "=1.3.1"
