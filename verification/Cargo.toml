[package]
name = "expense_manager"
version = "0.1.0"
edition = "2021"
publish = false

[dependencies]
chrono = "*"
console = "*"
dialoguer = "*"
prost-types = "*"
