[package]
name = "lhl"
version = "0.1.0"
edition = "2021"
publish = false

[dependencies]
hashbrown = "0.14"
serde = { version = "1", features = ["derive"] }
serde_json = "1"
libc = "0.2"
linux-futex = "*"
page_size = "0.6"
tynm = "0.1"
