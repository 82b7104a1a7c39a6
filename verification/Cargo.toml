[package]
name = "rippify"
version = "0.2.0"
edition = "2021"
publish = false

[dependencies]
ogg = "0.9"
getopts = "0.2"
colored = "2"
tokio = { version = "1", features = ["rt-multi-thread", "macros"] }

[dev-dependencies]
lewton = "0.10"
