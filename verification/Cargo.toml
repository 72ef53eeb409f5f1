[package]
name = "sovits_svc"
version = "0.1.0"
edition = "2021"
publish = false

[dependencies]
anyhow = "=1.0.104"
ffmpeg-the-third = { version = "=4.1.0", default-features = false, features = ["build", "codec", "format", "software-resampling"] }
hound = "=3.5.1"
libc = "=0.2.191"
mlx-rs = "=0.25.3"
