[package]
name = "s3fifo"
version = "0.1.0"
edition = "2021"
publish = false

[dependencies]
hashbrown = "0.14"
indexmap = "2"
ringbuf = "0.3"

[dev-dependencies]
rand = "0.8"
