[package]
name = "byte_trie"
version = "0.1.0"
edition = "2021"
publish = false

[dependencies]
packed_simd = "0.3"
rand = "0.8"
rand_distr = "0.4"
rand_isaac = "0.3"
