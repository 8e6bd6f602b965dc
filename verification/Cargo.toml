[package]
name = "revenant"
version = "0.1.0"
edition = "2021"
publish = false

[dependencies]
anyhow = "1"
chrono = { version = "=0.4.45", features = ["serde"] }
clap = { version = "4", features = ["derive"] }
futures-util = "0.3"
inotify = { version = "0.11", features = ["stream"] }
libc = "0.2"
nix = { version = "0.30", features = ["mount", "user", "fs", "ioctl", "signal", "process"] }
serde = { version = "1", features = ["derive"] }
serde_json = "1"
thiserror = "2"
tokio = { version = "1", features = ["rt-multi-thread", "macros", "signal", "sync", "time"] }
toml = { version = "=0.8.23", features = ["preserve_order"] }
toml_edit = "=0.22.27"
tracing = "0.1"
tracing-subscriber = { version = "0.3", features = ["env-filter"] }
uuid = { version = "=1.29.0", features = ["serde", "v4"] }
zbus = { version = "5", default-features = false, features = ["tokio"] }
zvariant = "5"
