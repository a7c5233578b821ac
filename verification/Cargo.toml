[package]
name = "worldbuilder_engine"
version = "0.1.0"
edition = "2021"
publish = false

[dependencies]
blake2 = "=0.10.6"
libm = "0.2"
