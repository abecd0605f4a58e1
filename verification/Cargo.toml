[package]
name = "astra"
version = "0.1.0"
edition = "2021"
publish = false

[dependencies]
native-tls = "0.2"
v8 = "*"

[dev-dependencies]
quickcheck = "1"
