[package]
name = "age_files"
version = "0.1.0"
edition = "2021"
publish = false

[dependencies]
age = { version = "=0.11.5", features = ["armor", "ssh"] }
bech32 = "=0.9.1"
chrono = "=0.4.45"
x25519-dalek = { version = "=2.0.1", features = ["static_secrets"] }
