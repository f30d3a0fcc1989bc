[package]
name = "be"
version = "0.1.0"
edition = "2021"
publish = false

[dependencies]
rand = "0.8"
serde = { version = "1", features = ["derive"] }
actix-web = "4"
actix-cors = "*"
actix-governor = "*"
