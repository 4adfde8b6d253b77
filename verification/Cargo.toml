[package]
name = "fvm"
version = "0.1.0"
edition = "2021"
publish = false

[dependencies]
anyhow = "1"
cid = "0.11"
multihash = "0.19"
multihash-codetable = { version = "*", features = ["blake2b", "sha2"] }
fvm_ipld_blockstore = "0.3"
fvm_ipld_encoding = "0.5"
fvm_shared = "4"
num-traits = "0.2"
serde = { version = "1", features = ["derive"] }
forest_hash_utils = "0.1"
lazy_static = "1"
libsecp256k1 = "0.7"
rand = "0.8"
rand_chacha = "0.3"
quickcheck = "1"
