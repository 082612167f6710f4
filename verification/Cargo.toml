[package]
name = "witness_node"
version = "0.1.0"
edition = "2021"
publish = false

[dependencies]
sha3 = "*"
ed25519-dalek = "*"
actix-web = "*"
env_logger = "*"
kademlia-dht = "*"
log = "*"
mime = "*"
rand = "*"
reqwest = { version = "*", default-features = false }
serde = { version = "*", features = ["derive"] }
serde_json = "*"
structopt = "*"
