[package]
name = "ota_allocator"
version = "0.1.0"
edition = "2021"
publish = false

[dependencies]
hashbrown = "*"
rustc-hash = "*"
spin = "*"
libc = "*"
errno-no-std = "*"
libc-print = "*"
buddy_system_allocator = "*"
