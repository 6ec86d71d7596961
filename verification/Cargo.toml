[package]
name = "dduroc_engine"
version = "0.1.0"
edition = "2021"
publish = false

[dependencies]
chrono = { version = "0.4", default-features = false, features = ["std", "clock"] }
crossbeam-channel = "0.5"
postcard = { version = "1", default-features = false, features = ["use-std"] }
rustix = { version = "1", features = ["fs", "time", "process"] }
serde = { version = "1", features = ["derive"] }
smallvec = { version = "1", features = ["union"] }
thiserror = "2"
