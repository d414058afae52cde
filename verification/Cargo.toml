[package]
name = "wlight"
version = "0.1.0"
edition = "2021"
publish = false

[dependencies]
anyhow = "1"
blake3 = { version = "=1.8.7", features = ["pure"] }
bytemuck = "=1.25.2"
clap = { version = "4", features = ["derive"] }
crossbeam-channel = "0.5"
ddc-hi = "0.4"
directories = "6"
eframe = { version = "=0.37.0", default-features = false, features = ["glow", "wayland", "default_fonts"] }
serde = { version = "1", features = ["derive"] }
serde_json = "1"
tempfile = "3"
thiserror = "2"
tokio = { version = "1", features = ["macros", "rt-multi-thread", "signal", "time", "sync"] }
toml = "=1.1.8"
tracing = "0.1"
tracing-subscriber = { version = "0.3", features = ["env-filter"] }
wayrs-client = "=1.3.1"
wayrs-protocols = { version = "=0.14.11", features = ["wlr-gamma-control-unstable-v1"] }
zbus = { version = "=5.19.0", default-features = false, features = ["tokio"] }
zvariant = "=5.15.1"
