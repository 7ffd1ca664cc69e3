[package]
name = "riddle"
version = "0.1.0"
edition = "2021"
publish = false

[dependencies]
ab_glyph = "0.2"
base64 = "0.22"
libc = "0.2"
png = "0.17"
serde = { version = "1", features = ["derive"] }
serde_json = "1"
signal-hook = "0.3"
ureq = "2"
