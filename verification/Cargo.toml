[package]
name = "wilde_ssg"
version = "0.1.0"
edition = "2021"
publish = false

[dependencies]
pulldown-cmark = "0.12"
syntect = { version = "5", default-features = false, features = ["default-fancy"] }
serde = { version = "1", features = ["derive"] }
serde_json = "1"
tera = "1"
walkdir = "2"
