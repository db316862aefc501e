[package]
name = "onechain"
version = "0.1.0"
edition = "2021"
publish = false

[dependencies]
sha2 = "0.10"
chrono = "0.4"
rand = "0.9"
twox-hash = "2"
libc = "0.2"
memmap2 = "0.9"
serde = { version = "1", features = ["derive"] }
log = "0.4"
simplelog = "0.12"
