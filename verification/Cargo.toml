[package]
name = "poker_ev"
version = "0.1.0"
edition = "2021"
publish = false

[dependencies]
bincode = "1"
csv = "1"
itertools = "0.10"
lexical = "6"
rand = "0.8"
rand_chacha = "0.3"
serde = { version = "1", features = ["derive"] }
