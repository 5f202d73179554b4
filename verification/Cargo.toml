[package]
name = "tableland"
version = "0.1.0"
edition = "2021"
publish = false

[dependencies]
anyhow = "=1.0.104"
cid = "=0.11.3"
frc42_dispatch = "=11.0.0"
fvm_ipld_blockstore = "=0.3.2"
fvm_ipld_encoding = "=0.5.4"
fvm_ipld_hamt = { version = "=0.10.6", features = ["identity"] }
fvm_shared = "=4.8.4"
getrandom = { version = "=0.2.17", features = ["custom"] }
multihash = "=0.19.5"
multihash-codetable = { version = "=0.2.2", features = ["blake2b"] }
num-derive = "=0.4.2"
num-traits = "=0.2.19"
rusqlite = { version = "=0.29.0", features = ["bundled"] }
serde = { version = "=1.0.229", features = ["derive"] }
serde_with = "=3.24.0"
sqlite-vfs = "=0.2.0"
thiserror = "=1.0.69"
