[package]
name = "chat_z_backend"
version = "0.1.0"
edition = "2021"
publish = false

[dependencies]
base64 = "0.21"
candid = "0.10"
hex = "0.4"
sha2 = "0.10"
serde = { version = "1", features = ["derive"] }
ic-cdk = "0.18"
ic-cdk-timers = "0.12"
ic-management-canister-types = "0.3"
ic-stable-structures = "0.6"
