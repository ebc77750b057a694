[package]
name = "logic_engine"
version = "0.1.0"
edition = "2021"
publish = false

[dependencies]
nom = "7"
nom_locate = "4"
