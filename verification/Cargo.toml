[package]
name = "tuckr"
version = "0.1.0"
edition = "2021"
publish = false

[dependencies]
age = "0.11"
clap = { version = "4", features = ["derive"] }
dirs = "*"
owo-colors = "*"
tabled = "*"
rpassword = "*"
