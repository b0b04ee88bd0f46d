[package]
name = "rustracer"
version = "0.1.0"
edition = "2021"
publish = false

[dependencies]
rand = "=0.10.3"
ash = "=0.38.0"
nalgebra-glm = "=0.21.0"
serde = { version = "=1.0.229", features = ["derive"] }
thiserror = "=2.0.21"
anyhow = "=1.0.104"
rayon = "=1.12.0"
tobj = "*"
