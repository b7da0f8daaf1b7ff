[package]
name = "b-link"
version = "0.1.0"
edition = "2021"
publish = false

[dependencies]
parking_lot = { version = "0.12", features = ["arc_lock"] }
