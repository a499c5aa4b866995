[package]
name = "geo_rand"
version = "0.1.0"
edition = "2021"
publish = false

[dependencies]
geo = { version = "*", default-features = false }
rand = { version = "0.9", default-features = false, features = ["std_rng"] }
