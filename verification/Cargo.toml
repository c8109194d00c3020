[package]
name = "mailbox_core"
version = "0.1.0"
edition = "2021"
publish = false

[dependencies]
hex = "0.4"
bech32 = "*"
sha3 = "0.10"

[dev-dependencies]
serde_json = "1"
