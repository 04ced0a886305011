[package]
name = "hitest"
version = "0.1.0"
edition = "2021"
publish = false

[dependencies]
rand = "0.8"
nix = { version = "0.29", features = ["time", "process", "signal"] }
rayon = "1"
libloading = "0.8"
serde = { version = "1", features = ["derive"] }
toml = "0.8"
clap = { version = "3", default-features = false, features = ["std"] }
log = "0.4"
env_logger = "0.10"
termcolor = "1"
thiserror = "1"
