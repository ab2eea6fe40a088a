[package]
name = "hope"
version = "0.1.0"
edition = "2021"
publish = false

[dependencies]
sha2 = "=0.10.9"
ed25519-dalek = { version = "=2.2.0", features = ["rand_core"] }
rand = "=0.8.8"
memmap2 = "=0.9.12"
wasmer = "=7.0.1"
serde = { version = "=1.0.229", features = ["derive"] }
reqwest = { version = "=0.12.28", default-features = false, features = ["json", "rustls-tls"] }
tokio = { version = "=1.54.1", features = ["macros", "rt-multi-thread", "time"] }
ratatui = "=0.26.3"
crossterm = "=0.27.0"
zerocopy = "=0.8.63"
