[package]
name = "livecount"
version = "0.1.0"
edition = "2021"
publish = false

[dependencies]
anyhow = "1"
clap = { version = "4", features = ["derive"] }
futures-util = "0.3"
lazy_static = "1"
log = "0.4"
prometheus = "0.13"
stderrlog = "0.6"
tokio = { version = "1", features = ["sync", "macros", "rt-multi-thread", "time"] }
warp = { version = "0.3", features = ["tls"] }
