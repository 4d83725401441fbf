[package]
name = "stost"
version = "0.1.0"
edition = "2021"
publish = false

[dependencies]
rand = "0.8"
rustc-hash = "1"
indexmap = "2"
serde = { version = "1", features = ["derive"] }
serde_json = "1"
rmp-serde = "1"
quick-protobuf = "0.8"
chrono = "0.4"
glob = "0.3"
rouille = "3"
rstar = "0.12"
assert_float_eq = "1"
by_address = "1"
