[package]
name = "quote_client"
version = "0.1.0"
edition = "2021"
publish = false

[dependencies]
bincode = { version = "2", default-features = false, features = ["std"] }
clap = { version = "4", features = ["derive"] }
thiserror = "2"
