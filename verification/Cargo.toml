[package]
name = "business_days"
version = "0.1.0"
edition = "2021"
publish = false

[dependencies]
polars-core = { version = "0.40", default-features = false, features = ["dtype-date"] }
