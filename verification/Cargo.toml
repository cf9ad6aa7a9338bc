[package]
name = "path2md"
version = "0.1.0"
edition = "2021"
publish = false

[dependencies]
glob = "=0.3.4"
file-format = { version = "=0.29.0", features = ["reader-txt"] }
clap = { version = "=4.6.7", features = ["derive"] }
anyhow = "=1.0.104"
