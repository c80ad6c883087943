[package]
name = "upodesh"
version = "0.1.0"
edition = "2021"
publish = false

[dependencies]
fst = "0.4"
once_cell = "1"
rexplode = "*"
serde = { version = "1", features = ["derive"] }
serde_json = "1"
