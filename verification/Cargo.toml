[package]
name = "linkfix"
version = "0.1.0"
edition = "2021"
publish = false

[dependencies]
rand = "0.8"
cap-std = "*"
rustix = { version = "*", features = ["fs"] }
clap = { version = "4", features = ["derive"] }
tracing = "0.1"
tracing-subscriber = "0.3"
