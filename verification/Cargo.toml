[package]
name = "big_num"
version = "0.1.0"
edition = "2021"
publish = false

[dependencies]
lalrpop-util = "0.20"

[dev-dependencies]
rand = "0.8"
