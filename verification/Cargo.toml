[package]
name = "mint"
version = "0.1.0"
edition = "2021"
publish = false

[dependencies]
anyhow = "1"
clap = { version = "4", features = ["derive"] }
ebur128 = "0.1"
env_logger = "0.11"
flacenc = "*"
glob = "0.3"
hound = "3"
libsoxr = "*"
mp3lame-encoder = "*"
rand = "0.8"
rayon = "1"
rubato = "0.16"
rustfft = "6"
serde = { version = "1", features = ["derive"] }
serde_json = "1"
symphonia = { version = "0.5", features = ["aiff", "pcm", "wav"] }
toml = "0.8"
