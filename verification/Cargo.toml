[package]
name = "storage_canister"
version = "0.1.0"
edition = "2021"
publish = false

[dependencies]
sha2 = "*"
hex = "*"
ic-stable-structures = "*"
candid = "*"
serde = "*"
ic-cdk = "*"
ic-asset-certification = "*"
