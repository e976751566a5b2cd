[package]
name = "water_sort"
version = "0.1.0"
edition = "2021"
publish = false

[dependencies]
anyhow = "1"
clap = { version = "4", features = ["derive"] }
serde = { version = "1", features = ["derive"] }
serde_json = "1"
log = "0.4"
env_logger = "0.11"
image = { version = "0.25", default-features = false, features = ["png"] }
minifb = "*"
opencv = "*"
ctrlc = "3"
colored = "*"
lazy_static = "1"
libc = "0.2"
