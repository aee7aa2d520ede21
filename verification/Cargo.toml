[package]
name = "tectonic-cxx"
version = "0.1.0"
edition = "2021"
publish = false

[dependencies]
anyhow = "=1.0.104"
cxx = "=1.0.205"
cxx-build = "=1.0.205"
tectonic = { version = "=0.17.0", default-features = false }
