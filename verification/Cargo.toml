[package]
name = "radicle-artifact"
version = "0.1.0"
edition = "2021"
publish = false

[dependencies]
blake3 = "*"
cid = "*"
clap = { version = "*", features = ["derive"] }
indexmap = "*"
indicatif = "*"
inquire = "*"
iroh-base = { version = "*", default-features = false, features = ["key"] }
log = "*"
radicle = "*"
serde = { version = "*", features = ["derive"] }
serde_json = "*"
sqlite = "*"
thiserror = "*"
tokio = { version = "*", features = ["rt-multi-thread", "macros", "signal", "time"] }
ureq = "*"
url = "*"
