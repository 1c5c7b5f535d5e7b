[package]
name = "gdn2"
version = "0.7.0"
edition = "2021"
publish = false

[dependencies]
burn-autodiff = { version = "0.21.0", default-features = false, features = ["std"] }
burn-backend = { version = "0.21.0", default-features = false, features = ["std"] }
burn-tensor = { version = "0.21.0", default-features = false, features = ["std"] }
