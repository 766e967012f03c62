[package]
name = "sandpile"
version = "0.1.0"
edition = "2021"
publish = false

[dependencies]
rayon = "=1.12.0"
serde = { version = "=1.0.229", features = ["derive"] }
bincode = "=1.3.3"
image = { version = "=0.25.10", default-features = false, features = ["png"] }
iced = { version = "0.1.0-beta", features = ["image"] }

[dev-dependencies]
rand = "=0.8.8"
