[package]
name = "packetize"
version = "0.1.0"
edition = "2021"
publish = false

[dependencies]
fastbuf = "*"
fastvarint = "*"
integer-encoding = "*"
arrayvec = "*"
uuid = "*"
nonmax = "*"
fast_collections = "*"
serialization = "*"
syn = { version = "2", features = ["full"] }
quote = "1"
proc-macro2 = "1"
