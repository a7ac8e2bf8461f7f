[package]
name = "wltile"
version = "1.3.0"
edition = "2021"
publish = false

[dependencies]
clap = { version = "4", features = ["derive"] }
colored = "2"
crossbeam-channel = "0.5"
daemonize = "0.5"
errno = "0.3"
fontdue = "0.9"
libc = "0.2"
serde = { version = "1", features = ["derive"] }
signal-hook = "0.3"
toml = "0.8"
tracing = "0.1"
tracing-subscriber = "0.3"
wayland-client = "0.31"
wayland-protocols = { version = "0.32", features = ["client"] }
wayland-protocols-wlr = { version = "0.3", features = ["client"] }
xdg = "3"
