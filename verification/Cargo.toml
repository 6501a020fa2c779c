[package]
name = "cns_rust"
version = "0.1.0"
edition = "2021"
publish = false

[dependencies]
base64 = "0.22"
env_logger = "*"
libc = "0.2"
log = "0.4"
mimalloc = "*"
rlimit = "*"
tokio = { version = "1", features = ["io-util", "macros", "net", "rt-multi-thread"] }

[dev-dependencies]
regex = "1"
