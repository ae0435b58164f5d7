[package]
name = "storage_monitor"
version = "0.1.0"
edition = "2021"
publish = false

[dependencies]
chrono = { version = "0.4", features = ["serde"] }
clap = { version = "4", features = ["derive"] }
dirs = "*"
lz4_flex = "*"
nix = { version = "*", features = ["fs"] }
postcard = { version = "1", features = ["use-std"] }
rayon = "1"
serde = { version = "1", features = ["derive"] }
serde_json = "1"
thiserror = "*"
