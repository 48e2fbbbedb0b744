[package]
name = "wikicorpus"
version = "0.1.0"
edition = "2021"
publish = false

[dependencies]
chrono = "=0.4.45"
dashmap = "=6.2.1"
serde = { version = "*", features = ["derive"] }
serde_json = "=1.0.151"
rayon = "*"
memmap2 = "*"
clap = "*"
reqwest = { version = "=0.13.5", default-features = false, features = ["blocking", "json", "query"] }

[dev-dependencies]
csv = "=1.4.0"
regex = "*"
