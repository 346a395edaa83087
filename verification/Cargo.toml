[package]
name = "sirs_solver"
version = "0.2.0"
edition = "2021"
publish = false

[dependencies]
docopt = "*"
serde = { version = "*", features = ["derive"] }
