[package]
name = "build_analyzer"
version = "0.1.0"
edition = "2021"
publish = false

[dependencies]
elf = "0.7"
clap = { version = "4", features = ["derive"] }
log = "0.4"
anyhow = "1"

[dev-dependencies]
regex = "1"
