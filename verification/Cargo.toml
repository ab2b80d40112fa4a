[package]
name = "cdgcd"
version = "0.1.0"
edition = "2021"
publish = false

[dependencies]
clap = { version = "4", features = ["derive"] }
env_logger = "0.11"
glob = "0.3"
humantime = "2"
inotify = "0.11"
libc = "0.2"
log = "0.4"
signal-hook = "0.3"
toml = { version = "0.8", features = ["preserve_order"] }
