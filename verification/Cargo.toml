[package]
name = "muonline-packet"
version = "0.2.0"
edition = "2021"
publish = false

[dependencies]
byteorder = "1"
smallvec = "1"
bytes = "0.4"
tokio-io = "0.1"
log = "0.4"
lazy_static = "1"
serde = "1"
bincode = "1"
num-traits = "0.2"
typenum = "1"
syn = "0.15"
quote = "0.6"
proc-macro2 = "0.4"
