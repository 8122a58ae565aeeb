[package]
name = "voice_pipeline"
version = "0.1.0"
edition = "2021"
publish = false

[dependencies]
ringbuf = "0.4"
cpal = "0.15"
nnnoiseless = { version = "0.5", default-features = false }
opus = "0.3"
rubato = "0.16"
tracing = "0.1"
tracing-subscriber = "0.3"
