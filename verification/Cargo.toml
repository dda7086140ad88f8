[package]
name = "aulon"
version = "0.1.0"
edition = "2021"
publish = false

[dependencies]
hdrhistogram = { version = "7", default-features = false }
libc = "0.2"
monoio = "0.2"
smallvec = "1"
tokio = { version = "1", features = ["rt", "sync"] }
tokio-uring = "0.5"

[dev-dependencies]
loom = "0.7"
