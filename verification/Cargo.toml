[package]
name = "rust_orbitdb_core"
version = "0.1.0"
edition = "2021"
publish = false

[dependencies]
cid = "=0.11.3"
ecdsa = { version = "=0.16.9", features = ["verifying", "der"] }
hex = "=0.4.3"
ipld-core = "=0.4.3"
k256 = { version = "=0.13.4", features = ["ecdsa", "sha256"] }
multihash = "=0.19.5"
serde = { version = "=1.0.229", features = ["derive"] }
sha2 = "=0.10.9"
thiserror = "=1.0.69"

[dev-dependencies]
serde_ipld_dagcbor = "=0.6.4"
