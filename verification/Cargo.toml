[package]
name = "brc"
version = "0.1.0"
edition = "2021"
publish = false

[dependencies]
hashbrown = "*"
cmov = "*"
memmap2 = "*"
libc = "*"
allocator-api2 = "*"
clap = { version = "*", features = ["derive"] }
