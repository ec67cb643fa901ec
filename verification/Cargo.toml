[package]
name = "xr"
version = "0.1.0"
edition = "2021"
publish = false

[dependencies]
ahash = "*"
anyhow = "1"
bad64 = "*"
clap = { version = "4", features = ["derive"] }
dylex = "*"
goblin = "*"
iced-x86 = "1"
memmap2 = "*"
rustc-hash = "2"
serde = { version = "1", features = ["derive"] }
serde_json = "1"

[dev-dependencies]
tempfile = "3"
