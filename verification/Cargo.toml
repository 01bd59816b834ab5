[package]
name = "trie"
version = "0.1.0"
edition = "2021"
publish = false

[dependencies]
regex = "1"
hashbrown = "0.14"
fst = "0.4"
bitvec = "1"
rand = "0.4"
uuid = { version = "1", features = ["v4"] }
