[package]
name = "tipe_project"
version = "0.1.0"
edition = "2021"
publish = false

[dependencies]
rand = "0.9"
bytemuck = { version = "1", features = ["derive"] }
