[package]
name = "virtual_fs"
version = "0.1.0"
edition = "2021"
publish = false

[dependencies]
zip = { version = "=0.6.6", default-features = false, features = ["deflate"] }
tar = { version = "=0.4.46", default-features = false }
parking_lot = "=0.12.5"
enumflags2 = "=0.7.12"

[dev-dependencies]
itertools = "=0.15.0"
