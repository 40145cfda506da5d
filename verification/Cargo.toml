[package]
name = "argus"
version = "0.1.0"
edition = "2021"
publish = false

[dependencies]
alloy = { version = "1", default-features = false, features = ["consensus", "rpc-types-eth"] }
futures = "0.3"
serde = { version = "1", features = ["derive"] }
tracing = "0.1"

[dev-dependencies]
config = { version = "0.15", default-features = false, features = ["yaml"] }
