[package]
name = "nit"
version = "0.1.0"
edition = "2021"
publish = false

[dependencies]
anyhow = "1"
chrono = "0.4"
flate2 = "1"
rand = "0.8"
sha1 = "0.10"
structopt = "0.3"
thiserror = "1"
