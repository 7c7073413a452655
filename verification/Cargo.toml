[package]
name = "gwt"
version = "0.1.0"
edition = "2021"
publish = false

[dependencies]
petgraph = "*"
clap = { version = "*", features = ["derive"] }
graphviz-rust = "*"
miette = "*"
thiserror = "*"
