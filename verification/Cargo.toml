[package]
name = "gluapack_unpack"
version = "0.1.0"
edition = "2021"
publish = false

[dependencies]
thiserror = "1"
tokio = { version = "1", default-features = false, features = ["rt"] }
