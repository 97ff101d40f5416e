[package]
name = "calimero_store"
version = "0.1.0"
edition = "2021"
publish = false

[dependencies]
axum = "*"
borsh = { version = "*", features = ["derive"] }
eyre = "*"
merkletree = "*"
sha2 = "*"
