[package]
name = "dzip_core"
version = "0.1.0"
edition = "2021"
publish = false

[dependencies]
anyhow = "1"
byteorder = "1"
bzip2 = "*"
clap = { version = "4", features = ["derive"] }
env_logger = "*"
flate2 = "1"
indicatif = "*"
log = "0.4"
lzma-rs = "0.3"
rayon = "1"
serde = { version = "1", features = ["derive"] }
thiserror = "*"
toml = "*"
