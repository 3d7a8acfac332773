[package]
name = "sina"
version = "0.1.0"
edition = "2021"
publish = false

[dependencies]
anyhow = "1"
apriltag = "*"
base64 = "0.22"
clap = { version = "4", features = ["derive"] }
clipper2 = "*"
crossbeam-channel = "0.5"
csv = "1"
ffmpeg-next = "*"
i_overlay = "*"
image = { version = "0.25", default-features = false, features = ["jpeg"] }
macroquad = "*"
nalgebra = "*"
num_cpus = "1"
opencv = "*"
ordered-float = "*"
serde = { version = "1", features = ["derive"] }
serde_json = "1"
spade = "2"
toml = "*"
winnow = "0.7"
zmq = "*"
