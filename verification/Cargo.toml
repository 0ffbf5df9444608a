[package]
name = "matrix_channel"
version = "0.1.0"
edition = "2021"
publish = false

[dependencies]
async-trait = "0.1"
base64 = "0.22"
chrono = { version = "0.4", default-features = false, features = ["clock", "std"] }
libsql = { version = "*", default-features = false, features = ["core"] }
serde = { version = "1", features = ["derive"] }
serde_json = "1"
vodozemac = "0.9"
