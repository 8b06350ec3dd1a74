[package]
name = "vectomancy"
version = "0.1.0"
edition = "2021"
publish = false

[dependencies]
image = { version = "=0.25.10", default-features = false, features = ["png", "jpeg", "webp"] }
imageproc = { version = "=0.25.1", default-features = false }
woff2 = "=0.3.0"
bytes = "=1.9.0"
flate2 = "=1.1.10"
base64 = "=0.22.1"
serde = { version = "=1.0.229", features = ["derive"] }
serde_json = "=1.0.154"
clap = { version = "=4.6.7", features = ["derive"] }
clap_complete = "=4.6.11"
directories = "=6.0.0"
toml = "=1.1.8"
ab_glyph = "=0.2.32"
usvg = "=0.49.0"
rustfft = "=6.4.1"
kiddo = "=4.2.1"
zip = { version = "=2.6.1", default-features = false, features = ["deflate"] }
