[package]
name = "http_load_gen"
version = "0.1.0"
edition = "2021"
publish = false

[dependencies]
clap = { version = "4", features = ["derive"] }
hyper = { version = "0.14", features = ["client", "http1", "tcp"] }
indicatif = "0.17"
tabled = "0.14"
tokio = { version = "1", features = ["rt-multi-thread", "macros", "sync", "time"] }
