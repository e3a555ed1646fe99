[package]
name = "music_tools"
version = "0.1.0"
edition = "2021"
publish = false

[dependencies]
anyhow = "*"
camino = "*"
chrono = "*"
clap = { version = "*", features = ["derive"] }
dirs = "*"
id3 = "*"
log = "*"
mpd = "*"
stderrlog = "*"
walkdir = "*"
