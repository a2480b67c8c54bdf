[package]
name = "keystone_state_machine"
version = "0.1.0"
edition = "2021"
publish = false

[dependencies]
dashmap = "6"
fjall = "*"
serde = { version = "1", features = ["derive"] }
rmp-serde = "1"
rand = "*"
