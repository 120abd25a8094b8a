[package]
name = "rslox"
version = "0.1.0"
edition = "2021"
publish = false

[dependencies]
anyhow = "1"
arrayvec = "0.7"
clap = { version = "4", features = ["derive"] }
downcast-rs = "1"
hashbrown = "0.14"
