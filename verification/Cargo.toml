[package]
name = "xmip-core-library-net"
version = "0.1.0"
edition = "2021"
publish = false

[dev-dependencies]
hpack = "=0.3.0"
