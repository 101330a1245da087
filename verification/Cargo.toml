[package]
name = "json_rs_prac"
version = "0.1.0"
edition = "2021"
publish = false

[dependencies]
nom = "*"
