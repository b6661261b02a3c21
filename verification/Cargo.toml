[package]
name = "stream_astar"
version = "0.1.0"
edition = "2021"
publish = false

[dependencies]
smallvec = "1"
itoa = "1"
rand = "0.8"
color-eyre = "0.6"
clap = { version = "3", features = ["derive"] }
