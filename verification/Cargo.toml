[package]
name = "packable"
version = "0.1.0"
edition = "2021"
publish = false

[dependencies]
hashbrown = "0.14"
hex = "0.4"
jsonwebtoken = "8"
log = "0.4"
primitive-types = { version = "0.12", default-features = false }
rand = "0.8"
rust-argon2 = "2"
serde = { version = "1", features = ["derive"] }
thiserror = "1"
time = { version = "0.3", features = ["formatting", "parsing"] }
tracing = { version = "0.1", default-features = false, features = ["std"] }
