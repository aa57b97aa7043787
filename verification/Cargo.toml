[package]
name = "pocketboot"
version = "0.1.0"
edition = "2021"
publish = false

[dependencies]
abootimg-oxide = "0.5"
async-channel = "2"
async-executor = "1"
blob-wrangler = "0.0.2"
flate2 = "1"
gadgetry-most-foul = "0.1"
libc = "0.2"
rustix = { version = "1", features = ["termios"] }
ruzstd = "0.8"
sha2 = "0.10"
tracing = "0.1"
tracing-subscriber = "0.3"
