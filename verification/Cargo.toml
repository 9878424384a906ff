[package]
name = "uf2_tool"
version = "0.1.0"
edition = "2021"
publish = false

[dependencies]
clap = { version = "4", features = ["derive"] }
clap-num = "1"
thiserror = "2"
tracing = "0.1"
tracing-subscriber = "0.3"
