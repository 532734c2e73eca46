[package]
name = "coalescing_store"
version = "0.1.0"
edition = "2021"
publish = false

[dependencies]
async-trait = "0.1"
bytes = "=1.12.1"
futures = "=0.3.34"
object_store = { version = "=0.13.2", default-features = false }
rand = "=0.10.3"
