[package]
name = "optima"
version = "0.1.0"
edition = "2021"
publish = false

[dependencies]
nalgebra = "*"
parry3d-f64 = "*"
serde = { version = "1", features = ["derive"] }
serde_json = "1"
termion = "*"
