[package]
name = "stratis_backstore"
version = "0.1.0"
edition = "2021"
publish = false

[dependencies]
uuid = { version = "=1.29.0", features = ["v4"] }
devicemapper = "=0.28.1"
time = "=0.1.45"
