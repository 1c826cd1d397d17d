[package]
name = "image2ascii"
version = "0.1.0"
edition = "2021"
publish = false

[dependencies]
flate2 = "*"
image = "*"
termion = "*"
bincode = "1"
serde = "1"
serde_derive = "1"
ffmpeg-next = "*"
