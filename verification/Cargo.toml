[package]
name = "romhack"
version = "0.1.0"
edition = "2021"
publish = false

[dependencies]
goblin = "*"
rustc-demangle = "*"
serde = { version = "*", features = ["derive"] }
toml = "*"
