[package]
name = "sni_router"
version = "0.1.0"
edition = "2021"
publish = false

[dependencies]
anyhow = "=1.0.104"
caps = "=0.5.6"
clap = { version = "=4.6.7", features = ["derive"] }
ipnet = "=2.12.2"
ktls = "=6.0.2"
landlock = "=0.4.7"
libc = "=0.2.191"
nix = { version = "=0.31.3", features = ["socket", "uio"] }
prometheus = { version = "=0.14.0", features = ["push"] }
prost-reflect = { version = "=0.16.5", features = ["text-format"] }
regex = "=1.13.1"
ring = "=0.17.14"
rustls = "=0.23.46"
socket2 = "=0.6.5"
tokio = { version = "=1.54.1", features = ["full"] }
tracing = "=0.1.44"
tracing-subscriber = { version = "=0.3.23", features = ["env-filter"] }
