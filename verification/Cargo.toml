[package]
name = "treeize"
version = "0.1.0"
edition = "2021"
publish = false

[dependencies]
egui = { version = "=0.36.2", default-features = false, features = ["serde"] }
egui-scale = "=0.6.1"
serde = { version = "=1.0.229", features = ["derive"] }
