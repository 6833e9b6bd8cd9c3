[package]
name = "memsync"
version = "0.1.0"
edition = "2021"
publish = false

[dependencies]
bytemuck = "1"
vm-memory = { version = "*", features = ["backend-mmap", "backend-bitmap"] }
versionize = "*"
