[package]
name = "oyomi"
version = "0.1.0"
edition = "2021"
publish = false

[dependencies]
calamine = { version = "=0.26.1", features = ["dates"] }
quick-xml = "=0.37.5"
zip = { version = "=2.5.0", default-features = false, features = ["deflate"] }
