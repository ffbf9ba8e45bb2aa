[package]
name = "crazy_representation"
version = "0.1.0"
edition = "2021"
publish = false

[dependencies]
dashmap = "*"
num_cpus = "*"
threadpool = "*"
