[package]
name = "phonopaper"
version = "0.1.0"
edition = "2021"
publish = false

[dependencies]
image = { version = "=0.25.10", default-features = false, features = ["png", "jpeg"] }
base64 = "=0.22.1"
miniz_oxide = "=0.8.9"
clap = { version = "=4.6.7", features = ["derive"] }
hound = "=3.5.1"
symphonia = { version = "=0.5.5", default-features = false, features = ["mp3", "wav", "pcm"] }
rustfft = "=6.4.1"
num-complex = "=0.4.6"
pdf-writer = "=0.15.0"
thiserror = "=2.0.21"
color-eyre = "=0.6.5"
imageproc = { version = "=0.25.1", default-features = false }
serde = { version = "1", features = ["derive"] }
serde_json = "1"
rayon = "1"
