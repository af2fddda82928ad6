[package]
name = "del_files"
version = "0.2.0"
edition = "2021"
publish = false

[dependencies]
anyhow = "1"
clap = "2"
