[package]
name = "sushi_cutters"
version = "0.1.0"
edition = "2021"
publish = false

[dependencies]
amethyst = { version = "0.15", default-features = false, features = ["empty"] }
hibitset = "0.6"
rayon = "1"
log = "0.4"
rand = "0.7"
serde = { version = "1", features = ["derive"] }
