[package]
name = "backend_fight"
version = "0.1.0"
edition = "2021"
publish = false

[dependencies]
rustc-hash = "2"
serde = { version = "1", features = ["derive"] }
serde_json = "1"
chrono = "0.4"
tokio = { version = "1", features = ["full"] }
hyper = { version = "1", features = ["full"] }
hyper-util = { version = "0.1", features = ["full"] }
http-body-util = "0.1"
bytes = "1"
axum = "0.7"
mimalloc = "0.1"
rand = { version = "0.8", features = ["small_rng"] }
rand_distr = "0.4"
rayon = "1"
