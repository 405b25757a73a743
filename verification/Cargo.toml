[package]
name = "cribbage_library"
version = "0.1.0"
edition = "2021"
publish = false

[dependencies]
rand = "0.8"
arrayvec = "0.7"
serde = { version = "1", features = ["derive"] }
serde_json = "1"
once_cell = "1"
actix-web = "4"
actix-cors = "*"
azure_sdk_cosmos = "*"
