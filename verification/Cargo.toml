[package]
name = "eventfs"
version = "0.1.0"
edition = "2021"
publish = false

[dependencies]
blake3 = "=1.8.7"
fastcdc = "=3.2.1"
fuser = "=0.18.0"
libc = "=0.2.191"
postcard = { version = "=1.1.3", features = ["alloc"] }
rocksdb = { version = "=0.25.0", default-features = false }
rustix = { version = "=1.1.6", features = ["fs", "process"] }
serde = { version = "=1.0.229", features = ["derive"] }
tempfile = "=3.27.0"
time = { version = "=0.3.55", features = ["serde"] }
tracing = "=0.1.44"
