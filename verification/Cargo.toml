[package]
name = "dbm_baenk"
version = "0.1.0"
edition = "2021"

[dev-dependencies]
num = "=0.4.3"
