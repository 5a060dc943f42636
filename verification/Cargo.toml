[package]
name = "pipe_chain"
version = "0.1.0"
edition = "2021"
publish = false

[dependencies]
nannou = "0.19"
nannou_egui = "0.19"
