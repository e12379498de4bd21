[package]
name = "bevy_discovery"
version = "0.1.0"
edition = "2021"
publish = false

[dependencies]
proc-macro2 = "1"
quote = "1"
ron = "0.6"
rustc-hash = "1"
serde = { version = "1", features = ["derive"] }
syn = { version = "1", features = ["full"] }
