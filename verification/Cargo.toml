[package]
name = "ndn_face_wireless"
version = "0.1.0"
edition = "2021"
publish = false

[dependencies]
siphasher = "1"
ndn-tlv = "=0.4.1"
bytes = "=1.12.1"
async-trait = "=0.1.92"
smallvec = "=1.16.4"
tracing = "=0.1.44"
tokio = { version = "=1.54.1", features = ["rt-multi-thread", "macros", "sync", "time"] }
