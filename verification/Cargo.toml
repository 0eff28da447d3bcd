[package]
name = "trie_codec"
version = "0.1.0"
edition = "2021"
publish = false

[dependencies]
blake2-rfc = "*"

[dev-dependencies]
trie-db = "*"
trie-root = "*"
memory-db = "*"
hash-db = "*"
hash256-std-hasher = "*"
parity-scale-codec = "*"
trie-standardmap = "*"
