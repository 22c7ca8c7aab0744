[package]
name = "rinha"
version = "0.1.0"
edition = "2021"
publish = false

[dependencies]
axum = "0.8"
bytemuck = "1"
flate2 = "1"
hyper = { version = "1", features = ["server", "http1"] }
hyper-util = { version = "0.1", features = ["tokio"] }
memmap2 = "0.9"
serde = { version = "1", features = ["derive"] }
sonic-rs = "*"
tokio = { version = "1", features = ["full"] }
tower = { version = "0.5", features = ["util"] }
