[package]
name = "worldgen"
version = "0.1.0"
edition = "2021"
publish = false

[dependencies]
voronoice = "=0.2.0"
noiz = "=0.5.0"
bevy_math = "*"
clap = { version = "=4.6.7", features = ["derive"] }

[dev-dependencies]
wyrand = "=0.5.0"
