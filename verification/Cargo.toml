[package]
name = "scarlet"
version = "0.1.0"
edition = "2021"
publish = false

[dependencies]
num-bigint = "=0.4.8"
bytemuck = "=1.25.2"
serde_json = "=1.0.154"
libm = "=0.2.16"
libc = "=0.2.191"
objc2 = { version = "0.6", features = ["exception"] }
objc2-metal = "0.3"
