[package]
name = "thndr"
version = "0.1.0"
edition = "2021"
publish = false

[dependencies]
glam = "=0.34.1"
rayon = "=1.12.0"
tracing = "=0.1.44"
tracing-subscriber = { version = "=0.3.23", features = ["env-filter"] }
bytemuck = "=1.25.2"
