[package]
name = "broto"
version = "0.1.0"
edition = "2021"
publish = false

[dependencies]
thiserror = "2"
futures-io = "0.3"
futures-util = { version = "0.3", default-features = false, features = ["io", "std"] }
