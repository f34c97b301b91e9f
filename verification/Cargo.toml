[package]
name = "anime4you"
version = "0.1.0"
edition = "2021"
publish = false

[dependencies]
serde_json = "=1.0.151"
dssim-core = "=3.5.1"
lodepng = "=3.12.2"
reqwest = { version = "=0.13.5", features = ["multipart", "form"] }
tokio = { version = "=1.53.2", features = ["macros", "rt-multi-thread", "time", "fs"] }
clap = "=4.6.7"
anyhow = "=1.0.104"
colorful = "=0.3.2"
