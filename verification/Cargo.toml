[package]
name = "dir_listing"
version = "0.1.0"
edition = "2021"
publish = false

[dependencies]
clap = "4"
term_size = "0.3"
