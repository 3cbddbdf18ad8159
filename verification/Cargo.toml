[package]
name = "sdr_waterfall"
version = "0.1.0"
edition = "2021"
publish = false

[dependencies]
clap = { version = "4", features = ["derive"] }
rtlsdr_mt = "*"
rustfft = "6"
sdl2 = { version = "*", features = ["ttf"] }
