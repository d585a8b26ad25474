[package]
name = "tableaux"
version = "0.1.0"
edition = "2021"
publish = false

[dependencies]
winnow = "*"
anstyle = "*"
