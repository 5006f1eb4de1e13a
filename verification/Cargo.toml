[package]
name = "nailgun"
version = "0.1.0"
edition = "2021"
publish = false

[dependencies]
sha2 = "0.10"
futures = "0.3"
log = "0.4"
