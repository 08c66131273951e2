[package]
name = "hvm_bitcode"
version = "0.1.0"
edition = "2021"
publish = false

[dependencies]
bitbuffer = "*"
hvm = "*"
hvm-core = "*"
serde = { version = "1", features = ["derive"] }
