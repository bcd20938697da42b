[package]
name = "nix_visualizer"
version = "0.1.0"
edition = "2021"
publish = false

[dependencies]
clap = { version = "4", features = ["derive"] }
pipewire = "0.8"
rustfft = "6"
signal-hook = "0.3"
