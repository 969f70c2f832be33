[package]
name = "boggle"
version = "0.1.0"
edition = "2021"
publish = false

[dependencies]
trie-rs = { version = "*", features = ["serde"] }
postcard = { version = "1", features = ["alloc"] }
rayon = "1"
