[package]
name = "devil_connection_patcher"
version = "0.1.0"
edition = "2021"
publish = false

[dependencies]
sha2 = "=0.10.9"
globset = "=0.4.21"
serde_json = "=1.0.154"
walkdir = "=2.5.0"
thiserror = "=2.0.21"
anyhow = "=1.0.104"
crossbeam-channel = "=0.5.17"
include_dir = "=0.7.4"
eframe = { version = "=0.37.0", default-features = false, features = ["glow", "x11", "default_fonts"] }
image = { version = "=0.25.10", default-features = false, features = ["png"] }
