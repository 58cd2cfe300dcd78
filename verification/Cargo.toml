[package]
name = "crud_api"
version = "0.1.0"
edition = "2021"
publish = false

[dependencies]
base64 = "=0.23.1"
bytesize = "=2.7.0"
clap = { version = "=4.6.7", features = ["string"] }
