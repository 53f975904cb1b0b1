[package]
name = "wasserstein"
version = "0.1.0"
edition = "2021"
publish = false

[dependencies]
ndarray = "=0.16.1"
linfa = "=0.8.1"
linfa-nn = "=0.8.1"
