[package]
name = "candle_pitch"
version = "0.1.0"
edition = "2021"
publish = false

[dependencies]
candle-core = "=0.9.2"
candle-nn = "=0.9.2"
clap = { version = "=4.6.7", features = ["derive"] }
kuva = { version = "=0.6.0", features = ["png"] }
realfft = "=3.5.1"
rubato = "=5.0.1"
serde = { version = "=1.0.229", features = ["derive"] }
serde_json = "=1.0.154"
symphonia = { version = "=0.5.5", features = ["all"] }
