[package]
name = "wordler_core"
version = "0.1.0"
edition = "2021"
publish = false

[dependencies]
itertools = "0.10"
colored = "2"
promptly = "0.3"
eframe = "0.16"
