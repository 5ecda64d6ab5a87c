[package]
name = "ndcell"
version = "0.1.0"
edition = "2021"
publish = false

[dependencies]
seahash = "*"
weak-table = "*"
