[package]
name = "geometry"
version = "0.1.0"
edition = "2021"
publish = false

[dependencies]
i_overlay = "*"
ciborium = "0.2"
serde = { version = "1", features = ["derive"] }
gds21 = "0.2.0"
