[package]
name = "fuchu"
version = "0.1.0"
edition = "2021"
publish = false

[dependencies]
crossbeam = "0.8"
futures = "0.3"
mio = { version = "1", features = ["os-poll", "os-ext"] }
