[package]
name = "ring_containers"
version = "0.1.0"
edition = "2021"
publish = false
