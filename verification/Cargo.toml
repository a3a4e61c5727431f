[package]
name = "pretty_dtoa"
version = "0.1.0"
edition = "2021"
publish = false

[dependencies]
ryu_floating_decimal = "*"
ryu = "*"

[dev-dependencies]
rand = "0.8"
