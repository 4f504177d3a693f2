[package]
name = "elden_analyzer"
version = "0.1.0"
edition = "2021"
publish = false

[dependencies]
num-rational = "*"
num-traits = "*"
imageproc = "*"
regex = "*"
clap = { version = "*", features = ["derive"] }
color-eyre = "*"
thiserror = "*"
tracing = "*"
tracing-subscriber = { version = "*", features = ["env-filter"] }
tracing-error = "*"
tracing-indicatif = "*"
indicatif = "*"
rayon = "*"
lockfree-object-pool = "*"
chrono = "*"
libc = "*"
custom_debug = "*"
ffmpeg-next = "*"
tesseract-plumbing = "*"
