[package]
name = "music_brain"
version = "0.1.0"
edition = "2021"
publish = false

[dependencies]
clap = { version = "4", features = ["derive"] }
lofty = "*"
rayon = "1"
rusqlite = { version = "*", features = ["bundled"] }
rustfft = "6"
symphonia = { version = "0.5", features = ["mp3"] }
walkdir = "2"
