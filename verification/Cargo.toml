[package]
name = "nsd_packer"
version = "0.1.0"
edition = "2021"
publish = false

[dependencies]
clap = { version = "4", features = ["derive"] }
image = "0.24"
thousands = "0.2"
threadpool = "1"
