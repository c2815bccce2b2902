[package]
name = "teledustry"
version = "0.1.0"
edition = "2021"
publish = false

[dependencies]
strip-ansi-escapes = "=0.1.1"
getopts = "=0.2.24"
futures-util = "=0.3.34"
tokio = { version = "=1.53.2", features = ["full"] }
tgbot = { version = "=0.48.1", features = ["webhook"] }
