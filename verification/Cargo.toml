[package]
name = "swap_router"
version = "0.1.0"
edition = "2021"
publish = false

[dependencies]
alloy = { version = "=1.8.3", default-features = false, features = ["std", "provider-http", "contract", "rpc-types", "reqwest"] }
dotenv = "=0.15.0"
eyre = "=0.6.14"
tokio = { version = "=1.53.2", features = ["rt-multi-thread", "macros"] }
