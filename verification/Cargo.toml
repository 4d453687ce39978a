[package]
name = "ukodus"
version = "0.1.0"
edition = "2021"
publish = false

[dependencies]
bitstream-io = "2"
color-eyre = "0.6"
druid = "0.8"
owo-colors = "3"
rand = "0.8"
serde = { version = "1", features = ["derive"] }
thiserror = "1"
tracing = "0.1"
tracing-subscriber = "0.3"
