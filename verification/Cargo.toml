[package]
name = "notify"
version = "0.1.0"
edition = "2021"
publish = false

[dependencies]
inotify = "*"
kqueue = "*"
libc = "*"
mio = { version = "*", features = ["os-ext", "os-poll"] }
objc2-core-foundation = "*"
objc2-core-services = "*"
rustc-hash = "*"
tracing = "*"
walkdir = "*"
