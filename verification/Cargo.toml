[package]
name = "ganet"
version = "0.1.0"
edition = "2021"
publish = false

[dependencies]
rand = "0.6"
time = "0.1"
hashbrown = { version = "0.14", features = ["serde"] }
serde = { version = "1", features = ["derive"] }
serde_derive = "1"
serde_json = "1"
bincode = "1"
getopts = "0.2"
yaml-rust = "0.4"
mnist = "0.4"
rulinalg = "0.4"
rouille = "3"
log = "0.4"
