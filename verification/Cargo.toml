[package]
name = "hayaku"
version = "0.1.0"
edition = "2021"
publish = false

[dependencies]
regex = "*"
marksman_escape = "*"
serde_json = "*"
cookie = "=0.18.2"
log = "*"
