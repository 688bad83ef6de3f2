[package]
name = "fugue_ir"
version = "0.1.0"
edition = "2021"
publish = false

[dependencies]
anyhow = "1"
bitflags = "2"
bytes = "1"
iset = "*"
parking_lot = { version = "0.12", features = ["arc_lock"] }
rangemap = "1"
rkyv = "0.8"
rustc-hash = "2"
serde = { version = "1", features = ["derive"] }
smallvec = "1"
thiserror = "2"
tinyset = "*"
ustr = "1"
