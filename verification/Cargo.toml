[package]
name = "tananfs"
version = "0.1.0"
edition = "2021"
publish = false

[dependencies]
bytemuck = "=1.25.2"
env_logger = "=0.11.11"
fuser = { version = "=0.12.0", default-features = false }
libc = "=0.2.191"
log = "=0.4.34"
