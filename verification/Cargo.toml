[package]
name = "commonplace"
version = "0.1.0"
edition = "2021"
publish = false

[dependencies]
bimap = "*"
blake3 = "*"
rusqlite = { version = "*", features = ["bundled"] }
uuid = { version = "*", features = ["v4"] }
structopt = "*"
walkdir = "*"
fuser = "*"
libc = "*"
