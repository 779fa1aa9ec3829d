[package]
name = "otel_expohisto"
version = "0.1.0"
edition = "2021"
publish = false

[dev-dependencies]
rand = "0.8"
rand_distr = "0.4"
