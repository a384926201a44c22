[package]
name = "menu_typeset"
version = "0.1.0"
edition = "2021"
publish = false

[dependencies]
csv = "*"
handlebars = "*"
serde = { version = "*", features = ["derive"] }
serde_json = "*"
