[package]
name = "sysstatus"
version = "0.1.0"
edition = "2021"
publish = false

[dependencies]
argparse = "0.2"
nix = { version = "0.27", features = ["fs"] }
notify-rust = "4"
reqwest = { version = "0.11", default-features = false, features = ["blocking", "json", "rustls-tls"] }
serde = { version = "1", features = ["derive"] }
serde_json = "1"
whoami = "1"
