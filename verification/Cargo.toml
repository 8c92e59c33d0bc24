[package]
name = "leap_chain"
version = "0.1.0"
edition = "2021"
publish = false

[dependencies]
ractor = "=0.9.8"
tokio = { version = "1", features = ["rt-multi-thread", "macros", "time"] }
serde_json = "1"
futures = "0.3"
tokio-stream = "0.1"
async-trait = "0.1"
log = "0.4"
