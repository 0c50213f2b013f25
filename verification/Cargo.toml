[package]
name = "proxy_router"
version = "0.1.0"
edition = "2021"
publish = false

[dependencies]
futures = "0.1"
h2 = "0.1"
indexmap = "1.0"
tower-service = "0.1"
