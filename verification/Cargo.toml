[package]
name = "feather_redeemed"
version = "0.1.0"
edition = "2021"
publish = false

[dependencies]
clap = { version = "=4.6.7", features = ["derive"] }
dns-lookup = "=4.0.2"
ping-rs = "=0.1.2"
pnet = "=0.35.0"
tokio = { version = "=1.53.2", features = ["rt-multi-thread", "macros", "sync"] }
